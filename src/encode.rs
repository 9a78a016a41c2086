use vstd::prelude::*;
use vstd::string::StrSliceExecFns;
use vstd::string::StringExecFns;

use crate::document::{Document, ImDocument};
use crate::item::{Item, Key, Scalar, Table, Value};
use crate::raw_string::RawString;

verus! {

pub open spec fn decimal_chars() -> Seq<char> {
    seq!['0', '1', '2', '3', '4', '5', '6', '7', '8', '9']
}

/// The decimal digits of `n`, most significant first.
pub open spec fn digits_of(n: nat) -> Seq<char>
    decreases n,
{
    if n < 10 {
        seq![decimal_chars()[n as int]]
    } else {
        digits_of(n / 10).push(decimal_chars()[(n % 10) as int])
    }
}

/// How an integer is written in decimal.
pub open spec fn integer_text(v: int) -> Seq<char> {
    if v < 0 {
        seq!['-'] + digits_of((-v) as nat)
    } else {
        digits_of(v as nat)
    }
}

/// The text shown for `r`: its own text, a span resolved against `src`
/// when there is one that holds it, or `default`.
pub open spec fn shown_text(r: RawString, src: Option<Seq<char>>, default: Seq<char>) -> Seq<char> {
    match r {
        RawString::Spanned { start, end } => match src {
            Some(s) => if start <= end && end <= s.len() {
                s.subrange(start as int, end as int)
            } else {
                default
            },
            None => default,
        },
        _ => r.text(Seq::empty()),
    }
}

fn push_digits(out: &mut String, n: u64)
    ensures
        final(out)@ == old(out)@ + digits_of(n as nat),
    decreases n,
{
    if n >= 10 {
        push_digits(out, n / 10);
    }
    let d = (n % 10) as usize;
    let all = "0123456789";
    proof {
        reveal_strlit("0123456789");
        assert(all@ =~= decimal_chars());
    }
    let one = all.substring_char(d, d + 1);
    proof {
        assert(one@ =~= seq![decimal_chars()[d as int]]);
    }
    out.append(one);
    proof {
        if n >= 10 {
            assert(final(out)@ =~= old(out)@ + digits_of(n as nat));
        } else {
            assert(final(out)@ =~= old(out)@ + digits_of(n as nat));
        }
    }
}

/// Appends the decimal text of `v`.
pub fn push_integer(out: &mut String, v: i64)
    ensures
        final(out)@ == old(out)@ + integer_text(v as int),
{
    if v < 0 {
        let minus = "-";
        proof {
            reveal_strlit("-");
        }
        out.append(minus);
        let m = (-(v as i128)) as u64;
        push_digits(out, m);
        assert(final(out)@ =~= old(out)@ + integer_text(v as int));
    } else {
        push_digits(out, v as u64);
    }
}

/// Appends the text shown for `r`.
pub fn push_raw(out: &mut String, r: &RawString, src: Option<&str>, default: &str)
    ensures
        final(out)@ == old(out)@ + shown_text(
            *r,
            match src {
                Some(s) => Some(s@),
                None => None,
            },
            default@,
        ),
{
    match r {
        RawString::Empty => {
            assert(old(out)@ + Seq::<char>::empty() =~= old(out)@);
        },
        RawString::Explicit(s) => {
            out.append(s.as_str());
        },
        RawString::Spanned { start, end } => {
            match src {
                Some(s) => {
                    if *start <= *end && *end <= s.unicode_len() {
                        out.append(s.substring_char(*start, *end));
                    } else {
                        out.append(default);
                    }
                },
                None => {
                    out.append(default);
                },
            }
        },
    }
}

fn push_key(out: &mut String, key: &Key, src: Option<&str>) {
    push_raw(out, &key.decor.prefix, src, "");
    match &key.repr {
        RawString::Empty => out.append(key.name.as_str()),
        repr => push_raw(out, repr, src, key.name.as_str()),
    }
    push_raw(out, &key.decor.suffix, src, "");
}

fn push_scalar(out: &mut String, scalar: &Scalar) {
    match scalar {
        Scalar::Integer(i) => push_integer(out, *i),
        Scalar::Boolean(b) => out.append(if *b { "true" } else { "false" }),
        Scalar::Str(s) => {
            out.append("\"");
            out.append(s.as_str());
            out.append("\"");
        },
    }
}

fn push_value_line(out: &mut String, key: &Key, value: &Value, src: Option<&str>) {
    push_key(out, key, src);
    out.append("=");
    push_raw(out, &value.decor.prefix, src, "");
    match &value.repr {
        RawString::Explicit(s) => out.append(s.as_str()),
        RawString::Spanned { start, end } => {
            match src {
                Some(s) => {
                    if *start <= *end && *end <= s.unicode_len() {
                        out.append(s.substring_char(*start, *end));
                    } else {
                        push_scalar(out, &value.scalar);
                    }
                },
                None => push_scalar(out, &value.scalar),
            }
        },
        RawString::Empty => push_scalar(out, &value.scalar),
    }
    push_raw(out, &value.decor.suffix, src, "");
    out.append("\n");
}

/// Appends the lines of the scalar entries of `t`.
fn push_values(out: &mut String, t: &Table, src: Option<&str>) {
    let mut i: usize = 0;
    while i < t.entries.len()
        decreases t.entries@.len() - i,
    {
        match &t.entries[i].value {
            Item::Value(v) => push_value_line(out, &t.entries[i].key, v, src),
            _ => {},
        }
        i = i + 1;
    }
}

/// Writes a document: the scalar entries of the root first, then each
/// table under its header, then the trailing text. A document with an empty
/// root and no trailing text is written as the empty text.
pub fn render(root: &Table, trailing: &RawString, src: Option<&str>) -> (r: String)
    ensures
        root.entries@.len() == 0 ==> r@ == shown_text(
            *trailing,
            match src {
                Some(s) => Some(s@),
                None => None,
            },
            Seq::empty(),
        ),
{
    let mut out = String::new();
    if root.entries.len() > 0 {
        push_values(&mut out, root, src);
        let mut i: usize = 0;
        while i < root.entries.len()
            decreases root.entries@.len() - i,
        {
            match &root.entries[i].value {
                Item::Table(t) => {
                    push_raw(&mut out, &t.decor.prefix, src, "");
                    out.append("[");
                    push_key(&mut out, &root.entries[i].key, src);
                    out.append("]");
                    push_raw(&mut out, &t.decor.suffix, src, "");
                    out.append("\n");
                    push_values(&mut out, t, src);
                },
                _ => {},
            }
            i = i + 1;
        }
    }
    proof {
        reveal_strlit("");
    }
    push_raw(&mut out, trailing, src, "");
    assert(root.entries@.len() == 0 ==> out@ =~= shown_text(
        *trailing,
        match src {
            Some(s) => Some(s@),
            None => None,
        },
        Seq::empty(),
    ));
    out
}

impl ImDocument {
    /// The document as text; spans are resolved against its source.
    pub fn to_string(&self) -> (r: String)
        ensures
            self.root_table().entries@.len() == 0 ==> r@ == shown_text(
                self.trailing_raw(),
                Some(self.source()),
                Seq::empty(),
            ),
    {
        render(self.as_table(), self.trailing(), Some(self.raw()))
    }
}

impl Document {
    /// The document as text.
    pub fn to_string(&self) -> (r: String)
        requires
            self.root_item() is Table,
        ensures
            self.root_table().entries@.len() == 0 ==> r@ == shown_text(
                self.trailing_raw(),
                None,
                Seq::empty(),
            ),
    {
        render(self.as_table(), self.trailing(), None)
    }
}

} // verus!
