use vstd::prelude::*;
use vstd::string::StrSliceExecFns;
use vstd::string::StringExecFns;

verus! {

/// Text of a document, either owned or a range of character positions into
/// the source text the document was parsed from.
pub enum RawString {
    Empty,
    Explicit(String),
    Spanned { start: usize, end: usize },
}

impl RawString {
    /// The characters this text stands for, given the source text.
    pub open spec fn text(&self, src: Seq<char>) -> Seq<char> {
        match self {
            RawString::Empty => Seq::empty(),
            RawString::Explicit(s) => s@,
            RawString::Spanned { start, end } => src.subrange(*start as int, *end as int),
        }
    }

    /// A span lies inside a source of length `n`.
    pub open spec fn within(&self, n: nat) -> bool {
        match self {
            RawString::Spanned { start, end } => *start <= *end && *end <= n,
            _ => true,
        }
    }

    /// The text no longer depends on any source.
    pub open spec fn is_detached(&self) -> bool {
        !(self is Spanned)
    }

    /// `self` is what detaching `prev` against `src` gives: a span becomes an
    /// owned copy of the characters it covers, anything else is kept.
    pub open spec fn detached_from(&self, prev: RawString, src: Seq<char>) -> bool {
        match prev {
            RawString::Empty => self is Empty,
            RawString::Explicit(s) => self is Explicit && self->Explicit_0@ == s@,
            RawString::Spanned { start, end } => self is Explicit && self->Explicit_0@
                == src.subrange(start as int, end as int),
        }
    }

    /// An empty text.
    pub fn new() -> (r: RawString)
        ensures
            r is Empty,
    {
        RawString::Empty
    }

    /// An owned text.
    pub fn from_string(s: String) -> (r: RawString)
        ensures
            r is Explicit,
            r->Explicit_0@ == s@,
    {
        RawString::Explicit(s)
    }

    /// The text when it is available without a source: `None` for a span.
    pub fn as_str(&self) -> (r: Option<&str>)
        ensures
            self is Spanned <==> r is None,
            r is Some ==> r->Some_0@ == self.text(Seq::empty()),
    {
        match self {
            RawString::Empty => {
                proof {
                    reveal_strlit("");
                }
                Some("")
            },
            RawString::Explicit(s) => Some(s.as_str()),
            RawString::Spanned { .. } => None,
        }
    }

    /// The text, resolving a span against `input`.
    pub fn to_str<'s>(&'s self, input: &'s str) -> (r: &'s str)
        requires
            self.within(input@.len()),
        ensures
            r@ == self.text(input@),
    {
        match self {
            RawString::Empty => {
                proof {
                    reveal_strlit("");
                }
                ""
            },
            RawString::Explicit(s) => s.as_str(),
            RawString::Spanned { start, end } => input.substring_char(*start, *end),
        }
    }

    /// Replaces a span by an owned copy of the characters it covers in `input`.
    pub fn despan(self, input: &str) -> (r: RawString)
        requires
            self.within(input@.len()),
        ensures
            r.detached_from(self, input@),
            r.is_detached(),
            r.text(input@) == self.text(input@),
    {
        match self {
            RawString::Spanned { start, end } => {
                RawString::Explicit(String::from_str(input.substring_char(start, end)))
            },
            other => other,
        }
    }
}

/// Detaching keeps the text: after it, the text reads the same without any
/// source as it read before against its source.
pub proof fn lemma_detached_text(now: RawString, prev: RawString, src: Seq<char>)
    requires
        now.detached_from(prev, src),
    ensures
        now.is_detached(),
        forall|other: Seq<char>| #[trigger] now.text(other) == prev.text(src),
{
}

} // verus!
