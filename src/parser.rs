use vstd::prelude::*;
use vstd::string::StrSliceExecFns;
use vstd::string::StringExecFns;

use crate::item::{
    Decor,
    Item,
    Key,
    Scalar,
    Table,
    TableEntry,
    Value,
    in_source_order,
    item_within,
    key_start,
};
use crate::raw_string::RawString;

verus! {

/// What went wrong while reading a document.
#[derive(Clone, Copy, Debug, PartialEq, Eq, Structural)]
pub enum ErrorKind {
    /// A key was expected and no key character was found.
    InvalidKey,
    /// A character that does not fit the grammar where it stands.
    UnexpectedChar,
    /// No value could be read.
    InvalidValue,
    /// A string was not closed before the end of its line.
    UnterminatedString,
    /// An integer does not fit in 64 bits.
    IntegerOverflow,
    /// A key was defined twice in one table.
    DuplicateKey,
}

/// An error found while parsing, with the character position it was found at.
#[derive(Clone, Copy, Debug, PartialEq, Eq, Structural)]
pub struct TomlError {
    pub kind: ErrorKind,
    pub offset: usize,
}

impl TomlError {
    /// What went wrong.
    pub fn kind(&self) -> (r: ErrorKind)
        ensures
            r == self.kind,
    {
        self.kind
    }

    /// The character position of the error in the source text.
    pub fn offset(&self) -> (r: usize)
        ensures
            r == self.offset,
    {
        self.offset
    }
}

pub open spec fn is_ws(c: char) -> bool {
    c == ' ' || c == '\t'
}

pub open spec fn is_key_char(c: char) -> bool {
    ('a' <= c && c <= 'z') || ('A' <= c && c <= 'Z') || ('0' <= c && c <= '9') || c == '_' || c
        == '-'
}

pub open spec fn is_digit(c: char) -> bool {
    '0' <= c && c <= '9'
}

/// The number that a run of decimal digits stands for.
pub open spec fn decimal_value(s: Seq<char>) -> int
    decreases s.len(),
{
    if s.len() == 0 {
        0
    } else {
        decimal_value(s.drop_last()) * 10 + (s.last() as int - '0' as int)
    }
}

/// The first position at or after `i`, and before `end`, that is not a blank.
fn skip_ws(cs: &Vec<char>, i: usize, end: usize) -> (j: usize)
    requires
        i <= end <= cs@.len(),
    ensures
        i <= j <= end,
        forall|k: int| i <= k < j ==> is_ws(#[trigger] cs@[k]),
        j == end || !is_ws(cs@[j as int]),
        j == scan_end(cs@, i as int, end as int, 0),
{
    let mut j = i;
    while j < end && (cs[j] == ' ' || cs[j] == '\t')
        invariant
            i <= j <= end <= cs@.len(),
            forall|k: int| i <= k < j ==> is_ws(#[trigger] cs@[k]),
        decreases end - j,
    {
        j = j + 1;
    }
    proof {
        lemma_scan_end(cs@, i as int, end as int, 0, j as int);
    }
    j
}

fn scan_key(cs: &Vec<char>, i: usize, end: usize) -> (j: usize)
    requires
        i <= end <= cs@.len(),
    ensures
        i <= j <= end,
        forall|k: int| i <= k < j ==> is_key_char(#[trigger] cs@[k]),
        j == end || !is_key_char(cs@[j as int]),
        j == scan_end(cs@, i as int, end as int, 1),
{
    let mut j = i;
    while j < end && ((cs[j] >= 'a' && cs[j] <= 'z') || (cs[j] >= 'A' && cs[j] <= 'Z') || (cs[j]
        >= '0' && cs[j] <= '9') || cs[j] == '_' || cs[j] == '-')
        invariant
            i <= j <= end <= cs@.len(),
            forall|k: int| i <= k < j ==> is_key_char(#[trigger] cs@[k]),
        decreases end - j,
    {
        j = j + 1;
    }
    proof {
        lemma_scan_end(cs@, i as int, end as int, 1, j as int);
    }
    j
}

/// The position of the first line break at or after `i`, or the length.
fn line_end(cs: &Vec<char>, i: usize) -> (j: usize)
    requires
        i <= cs@.len(),
    ensures
        i <= j <= cs@.len(),
        forall|k: int| i <= k < j ==> #[trigger] cs@[k] != '\n',
        j == cs@.len() || cs@[j as int] == '\n',
        j == scan_end(cs@, i as int, cs@.len() as int, 3),
{
    let mut j = i;
    while j < cs.len() && cs[j] != '\n'
        invariant
            i <= j <= cs@.len(),
            forall|k: int| i <= k < j ==> #[trigger] cs@[k] != '\n',
        decreases cs@.len() - j,
    {
        j = j + 1;
    }
    proof {
        lemma_scan_end(cs@, i as int, cs@.len() as int, 3, j as int);
    }
    j
}

/// The characters of `src`, one per element.
fn chars_of(src: &str) -> (cs: Vec<char>)
    ensures
        cs@ == src@,
{
    let n = src.unicode_len();
    let mut cs: Vec<char> = Vec::new();
    let mut i: usize = 0;
    while i < n
        invariant
            n == src@.len(),
            i <= n,
            cs@ == src@.subrange(0, i as int),
        decreases n - i,
    {
        cs.push(src.get_char(i));
        i = i + 1;
    }
    assert(cs@ =~= src@);
    cs
}

/// The character classes the grammar scans over.
pub open spec fn in_class(class: int, c: char) -> bool {
    if class == 0 {
        is_ws(c)
    } else if class == 1 {
        is_key_char(c)
    } else if class == 2 {
        is_digit(c)
    } else if class == 3 {
        c != '\n'
    } else if class == 4 {
        c != '"'
    } else {
        c != '\''
    }
}

/// The first position at or after `i`, and before `end`, whose character is
/// not in `class`; `end` if there is none.
pub open spec fn scan_end(s: Seq<char>, i: int, end: int, class: int) -> int
    decreases end - i,
{
    if i < end && in_class(class, s[i]) {
        scan_end(s, i + 1, end, class)
    } else {
        i
    }
}

proof fn lemma_scan_end(s: Seq<char>, i: int, end: int, class: int, j: int)
    requires
        i <= j <= end,
        forall|k: int| i <= k < j ==> in_class(class, #[trigger] s[k]),
        j == end || !in_class(class, s[j]),
    ensures
        scan_end(s, i, end, class) == j,
    decreases j - i,
{
    if i < j {
        lemma_scan_end(s, i + 1, end, class, j);
    }
}

proof fn lemma_scan_end_past(s: Seq<char>, i: int, end: int, class: int, j: int)
    requires
        i <= j <= end,
        forall|k: int| i <= k < j ==> in_class(class, #[trigger] s[k]),
    ensures
        j <= scan_end(s, i, end, class) <= end,
        forall|k: int| i <= k < scan_end(s, i, end, class) ==> in_class(class, #[trigger] s[k]),
    decreases end - i,
{
    if i < end && in_class(class, s[i]) {
        if i < j {
            lemma_scan_end_past(s, i + 1, end, class, j);
        } else {
            lemma_scan_end_past(s, i + 1, end, class, i + 1);
        }
    }
}

/// Where the value starting at `i` ends, if a value that ends before `end`
/// starts there.
pub open spec fn value_end(s: Seq<char>, i: int, end: int) -> Option<int> {
    if i >= end {
        None
    } else if s[i] == '"' || s[i] == '\'' {
        let close = scan_end(s, i + 1, end, if s[i] == '"' { 4 } else { 5 });
        if close >= end {
            None
        } else if s[i] == '"' && exists|k: int| i < k < close && #[trigger] s[k] == '\\' {
            None
        } else {
            Some(close + 1)
        }
    } else if s[i] == '-' || s[i] == '+' || is_digit(s[i]) {
        let ds = digits_start(s, i);
        let de = scan_end(s, ds, end, 2);
        if de == ds || !fits_i64(signed_value(s[i] == '-', s.subrange(ds, de))) {
            None
        } else {
            Some(de)
        }
    } else if i + 4 <= end && s.subrange(i, i + 4) == seq!['t', 'r', 'u', 'e'] {
        Some(i + 4)
    } else if i + 5 <= end && s.subrange(i, i + 5) == seq!['f', 'a', 'l', 's', 'e'] {
        Some(i + 5)
    } else {
        None
    }
}

/// After the element of a line only blanks and a comment may follow.
pub open spec fn rest_ok(s: Seq<char>, i: int, end: int) -> bool {
    let t = scan_end(s, i, end, 0);
    t == end || s[t] == '#'
}

/// The line from `ls` to `le` is blank, a comment, a `[table]` header or a
/// `key = value` pair, each optionally followed by a comment.
#[verifier::opaque]
pub open spec fn line_ok(s: Seq<char>, ls: int, le: int) -> bool {
    let i = scan_end(s, ls, le, 0);
    if i == le || s[i] == '#' {
        true
    } else if s[i] == '[' {
        let j = scan_end(s, i + 1, le, 0);
        let ke = scan_end(s, j, le, 1);
        let k2 = scan_end(s, ke, le, 0);
        ke > j && k2 < le && s[k2] == ']' && rest_ok(s, k2 + 1, le)
    } else {
        let ke = scan_end(s, i, le, 1);
        let e = scan_end(s, ke, le, 0);
        let vs = scan_end(s, e + 1, le, 0);
        ke > i && e < le && s[e] == '=' && match value_end(s, vs, le) {
            Some(ve) => rest_ok(s, ve, le),
            None => false,
        }
    }
}

pub open spec fn is_line_start(s: Seq<char>, p: int) -> bool {
    0 <= p <= s.len() && (p == 0 || s[p - 1] == '\n')
}

/// Every line of the text is well formed.
pub open spec fn syntax_ok(s: Seq<char>) -> bool {
    forall|p: int| #[trigger] is_line_start(s, p) ==> line_ok(s, p, scan_end(s, p, s.len() as int, 3))
}

/// The key written at `p`: the run of key characters that starts there.
pub open spec fn key_text_at(s: Seq<char>, p: int) -> Seq<char> {
    s.subrange(p, scan_end(s, p, s.len() as int, 1))
}

/// A run of key characters starts at `p`.
pub open spec fn key_starts_at(s: Seq<char>, p: int) -> bool {
    0 <= p < s.len() && is_key_char(s[p]) && (p == 0 || !is_key_char(s[p - 1]))
}

/// Where the line starting at `p` ends.
pub open spec fn line_stop(s: Seq<char>, p: int) -> int {
    scan_end(s, p, s.len() as int, 3)
}

/// The first character of the line starting at `p` that is not a blank.
pub open spec fn line_first(s: Seq<char>, p: int) -> int {
    scan_end(s, p, line_stop(s, p), 0)
}

/// The line starting at `p` is a `[table]` header.
pub open spec fn is_header_line(s: Seq<char>, p: int) -> bool {
    is_line_start(s, p) && line_first(s, p) < line_stop(s, p) && s[line_first(s, p)] == '['
}

/// The line starting at `p` is a `key = value` pair.
pub open spec fn is_keyval_line(s: Seq<char>, p: int) -> bool {
    is_line_start(s, p) && line_first(s, p) < line_stop(s, p) && s[line_first(s, p)] != '['
        && s[line_first(s, p)] != '#'
}

/// Where the key of the line starting at `p` is written.
pub open spec fn line_key(s: Seq<char>, p: int) -> int {
    if is_header_line(s, p) {
        scan_end(s, line_first(s, p) + 1, line_stop(s, p), 0)
    } else {
        line_first(s, p)
    }
}

/// A header line starts strictly between `a` and `b`.
pub open spec fn header_between(s: Seq<char>, a: int, b: int) -> bool {
    exists|q: int| a < q < b && #[trigger] is_header_line(s, q)
}

/// The lines starting at `p` and `o` define the same key in the same table:
/// two headers, a header and a pair before any header, or two pairs with no
/// header between them.
pub open spec fn defines_twice(s: Seq<char>, p: int, o: int) -> bool {
    &&& 0 <= p < o
    &&& key_text_at(s, line_key(s, p)) == key_text_at(s, line_key(s, o))
    &&& (is_header_line(s, p) && is_header_line(s, o)) || (is_keyval_line(s, p) && !header_between(
        s,
        -1,
        p,
    ) && is_header_line(s, o)) || (is_keyval_line(s, p) && is_keyval_line(s, o)
        && !header_between(s, p, o))
}

proof fn lemma_header_step(s: Seq<char>, a: int, pos: int, le: int)
    requires
        is_line_start(s, pos),
        le == line_stop(s, pos),
        a <= pos,
    ensures
        header_between(s, a, le + 1) == (header_between(s, a, pos) || (a < pos && is_header_line(
            s,
            pos,
        ))),
{
    lemma_scan_end_past(s, pos, s.len() as int, 3, pos);
    if header_between(s, a, le + 1) {
        let q = choose|q: int| a < q < le + 1 && #[trigger] is_header_line(s, q);
        if q > pos {
            assert(s[q - 1] == '\n');
            assert(in_class(3, s[q - 1]));
        }
        if q < pos {
            assert(header_between(s, a, pos));
        }
    }
    if header_between(s, a, pos) {
        let q = choose|q: int| a < q < pos && #[trigger] is_header_line(s, q);
        assert(a < q < le + 1 && is_header_line(s, q));
    }
    if a < pos && is_header_line(s, pos) {
        assert(a < pos < le + 1 && is_header_line(s, pos));
    }
}

/// The line starting at `p` defines an entry of the root table: a header,
/// or a pair before any header.
pub open spec fn is_root_line(s: Seq<char>, p: int) -> bool {
    is_header_line(s, p) || (is_keyval_line(s, p) && !header_between(s, -1, p))
}

/// The line starting at `p` is a header or a pair.
pub open spec fn is_element_line(s: Seq<char>, p: int) -> bool {
    is_header_line(s, p) || is_keyval_line(s, p)
}

/// Where the value of the pair on the line starting at `p` begins.
pub open spec fn line_value_start(s: Seq<char>, p: int) -> int {
    let le = line_stop(s, p);
    let ke = scan_end(s, line_first(s, p), le, 1);
    let e = scan_end(s, ke, le, 0);
    scan_end(s, e + 1, le, 0)
}

/// The scalar is what is written from `vs` to `ve`.
pub open spec fn scalar_written(s: Seq<char>, vs: int, ve: int, sc: Scalar) -> bool {
    match sc {
        Scalar::Integer(v) => v == signed_value(s[vs] == '-', s.subrange(digits_start(s, vs), ve)),
        Scalar::Boolean(b) => s.subrange(vs, ve) == if b {
            seq!['t', 'r', 'u', 'e']
        } else {
            seq!['f', 'a', 'l', 's', 'e']
        },
        Scalar::Str(t) => t@ == s.subrange(vs + 1, ve - 1) && (s[vs] == '"' || s[vs] == '\'') && s[ve
            - 1] == s[vs],
    }
}

/// The entry holds the key and the value that the pair on the line starting
/// at `p` writes.
pub open spec fn pair_of_line(s: Seq<char>, p: int, e: TableEntry) -> bool {
    let vs = line_value_start(s, p);
    &&& key_start(e.key) == line_key(s, p)
    &&& key_written(s, e.key)
    &&& is_keyval_line(s, p)
    &&& e.value is Value
    &&& value_end(s, vs, line_stop(s, p)) is Some
    &&& e.value->Value_0.repr == RawString::Spanned {
        start: vs as usize,
        end: value_end(s, vs, line_stop(s, p))->Some_0 as usize,
    }
    &&& scalar_written(s, vs, value_end(s, vs, line_stop(s, p))->Some_0, e.value->Value_0.scalar)
}

/// The line starting at `q` is a pair under the header starting at `h`.
pub open spec fn in_section(s: Seq<char>, h: int, q: int) -> bool {
    is_keyval_line(s, q) && h < q && !header_between(s, h, q)
}

/// The entry holds what some pair under the header at `h` writes.
pub open spec fn from_section_line(s: Seq<char>, h: int, e: TableEntry) -> bool {
    exists|q: int| in_section(s, h, q) && #[trigger] pair_of_line(s, q, e)
}

/// The table holds one entry for each pair under the header at `h`, each
/// holding what its line writes.
pub open spec fn parsed_section(s: Seq<char>, h: int, t: Table) -> bool {
    &&& t.wf()
    &&& forall|k: int| 0 <= k < t.entries@.len() ==> from_section_line(s, h, #[trigger] t.entries@[k])
    &&& forall|q: int| #[trigger] in_section(s, h, q) ==> has_entry_for_line(s, t, q)
}

/// The entry holds what the line starting at `p` writes: for a pair its key
/// and value, for a header its key and the table of the pairs under it.
pub open spec fn entry_of_line(s: Seq<char>, p: int, e: TableEntry) -> bool {
    &&& key_start(e.key) == line_key(s, p)
    &&& key_written(s, e.key)
    &&& is_header_line(s, p) ==> e.value is Table && parsed_section(s, p, e.value->Table_0)
    &&& is_keyval_line(s, p) ==> pair_of_line(s, p, e)
}

/// After the line starting at `q`: past its line break, if it has one.
pub open spec fn after_line(s: Seq<char>, q: int) -> int {
    if line_stop(s, q) < s.len() {
        line_stop(s, q) + 1
    } else {
        line_stop(s, q)
    }
}

/// Where the trailing text starts: after the last header or pair, or at the
/// start when there is none.
pub open spec fn is_tail_start(s: Seq<char>, t: int) -> bool {
    &&& 0 <= t <= s.len()
    &&& forall|p: int| #[trigger] is_line_start(s, p) && t <= p ==> !is_element_line(s, p)
    &&& t == 0 || exists|q: int| #[trigger] is_element_line(s, q) && t == after_line(s, q)
}

/// The entry holds what some root line of the text writes.
pub open spec fn from_root_line(s: Seq<char>, e: TableEntry) -> bool {
    exists|p: int| is_root_line(s, p) && #[trigger] entry_of_line(s, p, e)
}

/// Some entry of the table has its key where the line starting at `p`
/// writes its key.
pub open spec fn has_entry_for_line(s: Seq<char>, t: Table, p: int) -> bool {
    exists|k: int| 0 <= k < t.entries@.len() && #[trigger] key_start(t.entries@[k].key) == line_key(s, p)
}

/// The root table holds one entry for each root line of the text, and each
/// entry holds what its line writes.
pub open spec fn parsed_root(s: Seq<char>, t: Table) -> bool {
    &&& forall|k: int| 0 <= k < t.entries@.len() ==> from_root_line(s, #[trigger] t.entries@[k])
    &&& forall|p: int| #[trigger] is_root_line(s, p) ==> has_entry_for_line(s, t, p)
}

proof fn lemma_section_done(s: Seq<char>, h: int, t: Table, lines: Seq<int>)
    requires
        t.wf(),
        lines.len() == t.entries@.len(),
        forall|k: int| 0 <= k < lines.len() ==> in_section(s, h, #[trigger] lines[k]),
        forall|k: int| 0 <= k < lines.len() ==> pair_of_line(s, #[trigger] lines[k], t.entries@[k]),
        forall|q: int| #[trigger] in_section(s, h, q) ==> exists|k: int|
            0 <= k < lines.len() && #[trigger] lines[k] == q,
    ensures
        parsed_section(s, h, t),
{
    assert forall|k: int| 0 <= k < t.entries@.len() implies from_section_line(s, h, #[trigger] t.entries@[k]) by {
        assert(in_section(s, h, lines[k]));
        assert(pair_of_line(s, lines[k], t.entries@[k]));
    }
    assert forall|q: int| #[trigger] in_section(s, h, q) implies has_entry_for_line(s, t, q) by {
        let k = choose|k: int| 0 <= k < lines.len() && #[trigger] lines[k] == q;
        assert(pair_of_line(s, lines[k], t.entries@[k]));
    }
}

proof fn lemma_line_keys_ordered(s: Seq<char>, p: int, o: int)
    requires
        is_element_line(s, p),
        is_element_line(s, o),
        p < o,
    ensures
        line_key(s, p) < line_key(s, o),
{
    lemma_scan_end_past(s, p, s.len() as int, 3, p);
    assert(s[o - 1] == '\n');
    if line_stop(s, p) > o - 1 {
        assert(in_class(3, s[o - 1]));
    }
    lemma_scan_end_past(s, o, line_stop(s, o), 0, o);
    lemma_scan_end_past(s, p, line_stop(s, p), 0, p);
    if is_header_line(s, o) {
        lemma_scan_end_past(s, line_first(s, o) + 1, line_stop(s, o), 0, line_first(s, o) + 1);
    }
    if is_header_line(s, p) {
        lemma_scan_end_past(s, line_first(s, p) + 1, line_stop(s, p), 0, line_first(s, p) + 1);
    }
}

/// Two lines whose keys are entries of a table with unique keys write
/// different key texts.
proof fn lemma_no_twice_in(s: Seq<char>, t: Table, p: int, o: int, k1: int, k2: int)
    requires
        t.wf(),
        is_element_line(s, p),
        is_element_line(s, o),
        p < o,
        0 <= k1 < t.entries@.len(),
        0 <= k2 < t.entries@.len(),
        key_start(t.entries@[k1].key) == line_key(s, p),
        key_start(t.entries@[k2].key) == line_key(s, o),
        key_written(s, t.entries@[k1].key),
        key_written(s, t.entries@[k2].key),
    ensures
        key_text_at(s, line_key(s, p)) != key_text_at(s, line_key(s, o)),
{
    lemma_line_keys_ordered(s, p, o);
    if k1 < k2 {
        assert(t.entries@[k1].key.name@ != t.entries@[k2].key.name@);
    } else {
        assert(t.entries@[k2].key.name@ != t.entries@[k1].key.name@);
    }
}

proof fn lemma_root_pair(s: Seq<char>, t: Table, p: int, o: int)
    requires
        parsed_root(s, t),
        t.wf(),
        is_root_line(s, p),
        is_root_line(s, o),
        p < o,
    ensures
        key_text_at(s, line_key(s, p)) != key_text_at(s, line_key(s, o)),
{
    assert(has_entry_for_line(s, t, p));
    assert(has_entry_for_line(s, t, o));
    let k1 = choose|k: int| 0 <= k < t.entries@.len() && #[trigger] key_start(t.entries@[k].key) == line_key(s, p);
    let k2 = choose|k: int| 0 <= k < t.entries@.len() && #[trigger] key_start(t.entries@[k].key) == line_key(s, o);
    assert(from_root_line(s, t.entries@[k1]));
    assert(from_root_line(s, t.entries@[k2]));
    let p1 = choose|q: int| is_root_line(s, q) && #[trigger] entry_of_line(s, q, t.entries@[k1]);
    let p2 = choose|q: int| is_root_line(s, q) && #[trigger] entry_of_line(s, q, t.entries@[k2]);
    lemma_no_twice_in(s, t, p, o, k1, k2);
}

proof fn lemma_last_header(s: Seq<char>, h: int, p: int)
    requires
        is_header_line(s, h),
        h < p,
    ensures
        exists|g: int| h <= g < p && #[trigger] is_header_line(s, g) && !header_between(s, g, p),
    decreases p - h,
{
    if header_between(s, h, p) {
        let h1 = choose|q: int| h < q < p && #[trigger] is_header_line(s, q);
        lemma_last_header(s, h1, p);
        let g = choose|g: int| h1 <= g < p && #[trigger] is_header_line(s, g) && !header_between(s, g, p);
        assert(h <= g < p);
    } else {
        assert(h <= h < p && is_header_line(s, h) && !header_between(s, h, p));
    }
}

proof fn lemma_governing_header(s: Seq<char>, p: int, o: int)
    requires
        is_keyval_line(s, p),
        is_keyval_line(s, o),
        p < o,
        !header_between(s, p, o),
        header_between(s, -1, p),
    ensures
        exists|h: int| #[trigger] is_header_line(s, h) && in_section(s, h, p) && in_section(s, h, o),
{
    let h0 = choose|q: int| -1 < q < p && #[trigger] is_header_line(s, q);
    lemma_last_header(s, h0, p);
    let h = choose|g: int| h0 <= g < p && #[trigger] is_header_line(s, g) && !header_between(s, g, p);
    assert(!header_between(s, h, o)) by {
        if header_between(s, h, o) {
            let q = choose|q: int| h < q < o && #[trigger] is_header_line(s, q);
            if q < p {
                assert(h < q < p && is_header_line(s, q));
            } else if q > p {
                assert(p < q < o && is_header_line(s, q));
            }
        }
    }
    assert(is_header_line(s, h) && in_section(s, h, p) && in_section(s, h, o));
}

proof fn lemma_header_table(s: Seq<char>, t: Table, h: int) -> (sec: Table)
    requires
        parsed_root(s, t),
        is_header_line(s, h),
    ensures
        parsed_section(s, h, sec),
{
    assert(is_root_line(s, h));
    assert(has_entry_for_line(s, t, h));
    let kh = choose|k: int| 0 <= k < t.entries@.len() && #[trigger] key_start(t.entries@[k].key) == line_key(s, h);
    assert(from_root_line(s, t.entries@[kh]));
    let ph = choose|q: int| is_root_line(s, q) && #[trigger] entry_of_line(s, q, t.entries@[kh]);
    if ph < h {
        lemma_line_keys_ordered(s, ph, h);
    } else if ph > h {
        lemma_line_keys_ordered(s, h, ph);
    }
    t.entries@[kh].value->Table_0
}

proof fn lemma_section_pair(s: Seq<char>, sec: Table, h: int, p: int, o: int)
    requires
        parsed_section(s, h, sec),
        in_section(s, h, p),
        in_section(s, h, o),
        p < o,
    ensures
        key_text_at(s, line_key(s, p)) != key_text_at(s, line_key(s, o)),
{
    assert(has_entry_for_line(s, sec, p));
    assert(has_entry_for_line(s, sec, o));
    let k1 = choose|k: int| 0 <= k < sec.entries@.len() && #[trigger] key_start(sec.entries@[k].key) == line_key(s, p);
    let k2 = choose|k: int| 0 <= k < sec.entries@.len() && #[trigger] key_start(sec.entries@[k].key) == line_key(s, o);
    assert(from_section_line(s, h, sec.entries@[k1]));
    assert(from_section_line(s, h, sec.entries@[k2]));
    let q1 = choose|q: int| in_section(s, h, q) && #[trigger] pair_of_line(s, q, sec.entries@[k1]);
    let q2 = choose|q: int| in_section(s, h, q) && #[trigger] pair_of_line(s, q, sec.entries@[k2]);
    lemma_no_twice_in(s, sec, p, o, k1, k2);
}

proof fn lemma_not_twice(s: Seq<char>, t: Table, p: int, o: int)
    requires
        parsed_root(s, t),
        t.wf(),
    ensures
        !defines_twice(s, p, o),
{
    if defines_twice(s, p, o) {
        if is_root_line(s, p) && is_root_line(s, o) {
            lemma_root_pair(s, t, p, o);
        } else {
            assert(is_keyval_line(s, p) && is_keyval_line(s, o) && !header_between(s, p, o));
            if !header_between(s, -1, p) {
                assert(header_between(s, -1, o));
                let q = choose|q: int| -1 < q < o && #[trigger] is_header_line(s, q);
                if q < p {
                    assert(-1 < q < p && is_header_line(s, q));
                } else if q > p {
                    assert(p < q < o && is_header_line(s, q));
                }
            }
            lemma_governing_header(s, p, o);
            let h = choose|h: int| #[trigger] is_header_line(s, h) && in_section(s, h, p) && in_section(s, h, o);
            let sec = lemma_header_table(s, t, h);
            lemma_section_pair(s, sec, h, p, o);
        }
    }
}

/// A text that parsed defines no key twice in any table.
proof fn lemma_parsed_unique(s: Seq<char>, t: Table)
    requires
        parsed_root(s, t),
        t.wf(),
    ensures
        keys_unique_per_table(s),
{
    assert forall|p: int, o: int| !#[trigger] defines_twice(s, p, o) by {
        lemma_not_twice(s, t, p, o);
    }
}

/// No table of the text defines a key twice.
pub open spec fn keys_unique_per_table(s: Seq<char>) -> bool {
    forall|p: int, o: int| !#[trigger] defines_twice(s, p, o)
}

/// The key was read from `s`, and its name is the text it was written with.
pub open spec fn key_written(s: Seq<char>, k: Key) -> bool {
    k.repr is Spanned && key_starts_at(s, key_start(k)) && k.name@ == key_text_at(s, key_start(k))
}

proof fn lemma_key_run(s: Seq<char>, i: int, ke: int, le: int)
    requires
        0 <= i < ke <= le <= s.len(),
        forall|k: int| i <= k < ke ==> is_key_char(#[trigger] s[k]),
        ke == le || !is_key_char(s[ke]),
        le == s.len() || s[le] == '\n',
        i == 0 || !is_key_char(s[i - 1]),
    ensures
        key_starts_at(s, i),
        key_text_at(s, i) == s.subrange(i, ke),
{
    assert(is_key_char(s[i]));
    lemma_scan_end(s, i, s.len() as int, 1, ke);
}

pub open spec fn all_digits(s: Seq<char>) -> bool {
    forall|k: int| 0 <= k < s.len() ==> is_digit(#[trigger] s[k])
}

/// The integer a sign and a run of digits stand for.
pub open spec fn signed_value(negative: bool, digits: Seq<char>) -> int {
    if negative {
        -decimal_value(digits)
    } else {
        decimal_value(digits)
    }
}

pub open spec fn fits_i64(v: int) -> bool {
    i64::MIN <= v <= i64::MAX
}

proof fn lemma_decimal_prefix(s: Seq<char>, k: int)
    requires
        all_digits(s),
        0 <= k <= s.len(),
    ensures
        0 <= decimal_value(s.subrange(0, k)) <= decimal_value(s),
    decreases s.len(),
{
    if s.len() > 0 {
        let d = s.drop_last();
        assert(all_digits(d)) by {
            assert forall|j: int| 0 <= j < d.len() implies is_digit(#[trigger] d[j]) by {
                assert(d[j] == s[j]);
            }
        }
        if k == s.len() {
            assert(s.subrange(0, k) =~= s);
            lemma_decimal_prefix(d, d.len() as int);
            assert(d.subrange(0, d.len() as int) =~= d);
        } else {
            lemma_decimal_prefix(d, k);
            assert(d.subrange(0, k) =~= s.subrange(0, k));
            lemma_decimal_prefix(d, d.len() as int);
            assert(d.subrange(0, d.len() as int) =~= d);
        }
    } else {
        assert(s.subrange(0, k) =~= s);
    }
}

/// Where the digits of an integer starting at `i` begin: after its sign, if any.
pub open spec fn digits_start(cs: Seq<char>, i: int) -> int {
    if cs[i] == '-' || cs[i] == '+' {
        i + 1
    } else {
        i
    }
}

/// Reads an integer: an optional sign and a run of decimal digits.
fn parse_integer(cs: &Vec<char>, i: usize, end: usize) -> (r: Result<(i64, usize), TomlError>)
    requires
        i < end <= cs@.len(),
    ensures
        ({
            let negative = cs@[i as int] == '-';
            let ds = digits_start(cs@, i as int);
            match r {
                Ok((v, j)) => ds < j <= end && all_digits(cs@.subrange(ds, j as int)) && (j == end
                    || !is_digit(cs@[j as int])) && v == signed_value(
                    negative,
                    cs@.subrange(ds, j as int),
                ),
                Err(e) => (e.kind == ErrorKind::InvalidValue && e.offset == ds && (ds == end
                    || !is_digit(cs@[ds]))) || (e.kind == ErrorKind::IntegerOverflow && e.offset
                    == i && exists|j: int|
                    ds < j <= end && all_digits(#[trigger] cs@.subrange(ds, j)) && !fits_i64(
                        signed_value(negative, cs@.subrange(ds, j)),
                    )),
            }
        }),
        ({
            let ds = digits_start(cs@, i as int);
            let de = scan_end(cs@, ds, end as int, 2);
            &&& r is Ok <==> de > ds && fits_i64(
                signed_value(cs@[i as int] == '-', cs@.subrange(ds, de)),
            )
            &&& r is Ok ==> r->Ok_0.1 == de
        }),
{
    let negative = cs[i] == '-';
    let ds: usize = if cs[i] == '-' || cs[i] == '+' { i + 1 } else { i };
    assert(ds == digits_start(cs@, i as int));
    let mut k: usize = ds;
    let mut acc: i64 = 0;
    while k < end && cs[k] >= '0' && cs[k] <= '9'
        invariant
            ds <= k <= end <= cs@.len(),
            negative == (cs@[i as int] == '-'),
            ds == digits_start(cs@, i as int),
            all_digits(cs@.subrange(ds as int, k as int)),
            acc == signed_value(negative, cs@.subrange(ds as int, k as int)),
        decreases end - k,
    {
        let ghost prev = cs@.subrange(ds as int, k as int);
        let ghost next = cs@.subrange(ds as int, k + 1);
        assert(next.drop_last() =~= prev);
        proof {
            lemma_decimal_prefix(prev, prev.len() as int);
            assert(prev.subrange(0, prev.len() as int) =~= prev);
        }
        assert(all_digits(next)) by {
            assert forall|j: int| 0 <= j < next.len() implies is_digit(#[trigger] next[j]) by {
                if j < prev.len() {
                    assert(next[j] == prev[j]);
                }
            }
        }
        let d = (cs[k] as u32 - '0' as u32) as i64;
        assert(d == cs@[k as int] as int - '0' as int);
        assert(next.last() == cs@[k as int]);
        assert(decimal_value(next) == decimal_value(prev) * 10 + d);
        let step = if negative {
            match acc.checked_mul(10) {
                Some(m) => m.checked_sub(d),
                None => None,
            }
        } else {
            match acc.checked_mul(10) {
                Some(m) => m.checked_add(d),
                None => None,
            }
        };
        match step {
            Some(v) => {
                acc = v;
            },
            None => {
                proof {
                    assert(!fits_i64(signed_value(negative, next)));
                    assert(all_digits(cs@.subrange(ds as int, k + 1)));
                    assert(exists|j: int|
                        ds < j <= end && all_digits(#[trigger] cs@.subrange(ds as int, j))
                            && !fits_i64(signed_value(negative, cs@.subrange(ds as int, j))));
                    assert forall|m: int| ds <= m < k + 1 implies in_class(2, #[trigger] cs@[m]) by {
                        assert(next[m - ds] == cs@[m]);
                    }
                    lemma_scan_end_past(cs@, ds as int, end as int, 2, k + 1);
                    let de = scan_end(cs@, ds as int, end as int, 2);
                    let full = cs@.subrange(ds as int, de);
                    assert(all_digits(full)) by {
                        assert forall|m: int| 0 <= m < full.len() implies is_digit(#[trigger] full[m]) by {
                            assert(in_class(2, cs@[ds + m]));
                        }
                    }
                    lemma_decimal_prefix(full, k + 1 - ds);
                    assert(full.subrange(0, k + 1 - ds) =~= next);
                }
                return Err(TomlError { kind: ErrorKind::IntegerOverflow, offset: i });
            },
        }
        k = k + 1;
    }
    proof {
        assert forall|m: int| ds <= m < k implies in_class(2, #[trigger] cs@[m]) by {
            assert(cs@.subrange(ds as int, k as int)[m - ds] == cs@[m]);
        }
        lemma_scan_end(cs@, ds as int, end as int, 2, k as int);
    }
    if k == ds {
        return Err(TomlError { kind: ErrorKind::InvalidValue, offset: ds });
    }
    Ok((acc, k))
}

/// Whether `word` stands in `cs` at position `i`, before `end`.
fn word_at(cs: &Vec<char>, i: usize, end: usize, word: &Vec<char>) -> (r: bool)
    requires
        i <= end <= cs@.len(),
    ensures
        r == (i + word@.len() <= end && cs@.subrange(i as int, i + word@.len()) == word@),
{
    if word.len() > end - i {
        return false;
    }
    let mut k: usize = 0;
    while k < word.len()
        invariant
            i + word@.len() <= end <= cs@.len(),
            k <= word@.len(),
            forall|m: int| 0 <= m < k ==> cs@[i + m] == #[trigger] word@[m],
        decreases word@.len() - k,
    {
        if cs[i + k] != word[k] {
            assert(cs@.subrange(i as int, i + word@.len())[k as int] != word@[k as int]);
            return false;
        }
        k = k + 1;
    }
    assert(cs@.subrange(i as int, i + word@.len()) =~= word@);
    true
}

/// Reads a quoted string opened at `i`: its characters up to the matching
/// quote, which must come before `end`. A basic string (`"`) may hold no
/// backslash.
fn parse_quoted(cs: &Vec<char>, src: &str, i: usize, end: usize) -> (r: Result<(String, usize), TomlError>)
    requires
        i < end <= cs@.len(),
        cs@ == src@,
        cs@[i as int] == '"' || cs@[i as int] == '\'',
    ensures
        match r {
            Ok((t, j)) => i + 2 <= j <= end && cs@[j - 1] == cs@[i as int] && t@ == cs@.subrange(
                i + 1,
                j - 1,
            ) && forall|k: int| i < k < j - 1 ==> #[trigger] cs@[k] != cs@[i as int],
            Err(e) => i <= e.offset <= end && e.kind != ErrorKind::DuplicateKey,
        },
        ({
            let close = scan_end(cs@, i + 1, end as int, if cs@[i as int] == '"' { 4 } else { 5 });
            &&& r is Ok <==> close < end && !(cs@[i as int] == '"' && exists|k: int|
                i < k < close && #[trigger] cs@[k] == '\\')
            &&& r is Ok ==> r->Ok_0.1 == close + 1
        }),
{
    let ghost class: int = if cs@[i as int] == '"' { 4 } else { 5 };
    let quote = cs[i];
    let mut k: usize = i + 1;
    while k < end && cs[k] != quote
        invariant
            i < k <= end <= cs@.len(),
            quote == cs@[i as int],
            class == if quote == '"' { 4int } else { 5int },
            forall|m: int| i < m < k ==> #[trigger] cs@[m] != quote,
            quote == '"' ==> forall|m: int| i < m < k ==> #[trigger] cs@[m] != '\\',
        decreases end - k,
    {
        if quote == '"' && cs[k] == '\\' {
            proof {
                assert forall|m: int| i + 1 <= m < k + 1 implies in_class(class, #[trigger] cs@[m]) by {
                    if m < k {
                        assert(cs@[m] != quote);
                    }
                }
                lemma_scan_end_past(cs@, i + 1, end as int, class, k + 1);
                assert(cs@[k as int] == '\\');
            }
            return Err(TomlError { kind: ErrorKind::InvalidValue, offset: k });
        }
        k = k + 1;
    }
    proof {
        assert forall|m: int| i + 1 <= m < k implies in_class(class, #[trigger] cs@[m]) by {
            assert(cs@[m] != quote);
        }
        lemma_scan_end(cs@, i + 1, end as int, class, k as int);
    }
    if k == end {
        return Err(TomlError { kind: ErrorKind::UnterminatedString, offset: i });
    }
    let text = String::from_str(src.substring_char(i + 1, k));
    Ok((text, k + 1))
}

/// Reads a value starting at `i`, which ends before `end`.
fn parse_value(cs: &Vec<char>, src: &str, i: usize, end: usize) -> (r: Result<(Scalar, usize), TomlError>)
    requires
        i <= end <= cs@.len(),
        cs@ == src@,
    ensures
        match r {
            Ok((sc, j)) => i < j <= end && match sc {
                Scalar::Integer(v) => v == signed_value(
                    cs@[i as int] == '-',
                    cs@.subrange(digits_start(cs@, i as int), j as int),
                ),
                Scalar::Boolean(b) => cs@.subrange(i as int, j as int) == if b {
                    seq!['t', 'r', 'u', 'e']
                } else {
                    seq!['f', 'a', 'l', 's', 'e']
                },
                Scalar::Str(t) => t@ == cs@.subrange(i + 1, j - 1) && (cs@[i as int] == '"'
                    || cs@[i as int] == '\'') && cs@[j - 1] == cs@[i as int],
            },
            Err(e) => i <= e.offset <= end && e.kind != ErrorKind::DuplicateKey,
        },
        r is Ok <==> value_end(cs@, i as int, end as int) is Some,
        r is Ok ==> value_end(cs@, i as int, end as int) == Some(r->Ok_0.1 as int),
{
    if i == end {
        return Err(TomlError { kind: ErrorKind::InvalidValue, offset: i });
    }
    let c = cs[i];
    if c == '"' || c == '\'' {
        match parse_quoted(cs, src, i, end) {
            Ok((t, j)) => Ok((Scalar::Str(t), j)),
            Err(e) => Err(e),
        }
    } else if c == '-' || c == '+' || (c >= '0' && c <= '9') {
        match parse_integer(cs, i, end) {
            Ok((v, j)) => Ok((Scalar::Integer(v), j)),
            Err(e) => {
                proof {
                    let ds = digits_start(cs@, i as int);
                    if ds <= end {
                        lemma_scan_end_past(cs@, ds, end as int, 2, ds);
                    }
                }
                Err(e)
            },
        }
    } else {
        let t = vec!['t', 'r', 'u', 'e'];
        let f = vec!['f', 'a', 'l', 's', 'e'];
        assert(t@ =~= seq!['t', 'r', 'u', 'e']);
        assert(f@ =~= seq!['f', 'a', 'l', 's', 'e']);
        if word_at(cs, i, end, &t) {
            Ok((Scalar::Boolean(true), i + 4))
        } else if word_at(cs, i, end, &f) {
            Ok((Scalar::Boolean(false), i + 5))
        } else {
            Err(TomlError { kind: ErrorKind::InvalidValue, offset: i })
        }
    }
}

/// The character after a line: past its line break, if it has one.
fn next_line(cs: &Vec<char>, le: usize) -> (r: usize)
    requires
        le <= cs@.len(),
    ensures
        r == if le < cs@.len() { le + 1 } else { le as int },
{
    if le < cs.len() {
        le + 1
    } else {
        le
    }
}

/// Adds an entry under a name the table does not hold yet.
fn push_new(t: &mut Table, e: TableEntry, Ghost(n): Ghost<nat>)
    requires
        old(t).wf(),
        item_within(Item::Table(*old(t)), n),
        e.key.within(n),
        item_within(e.value, n),
        forall|i: int| 0 <= i < old(t).entries@.len() ==> #[trigger] old(t).entries@[i].key.name@ != e.key.name@,
    ensures
        final(t).wf(),
        item_within(Item::Table(*final(t)), n),
        final(t).entries@ == old(t).entries@.push(e),
        final(t).decor == old(t).decor,
        final(t).position == old(t).position,
        in_source_order(*old(t)) && 0 <= key_start(e.key) && (forall|i: int|
            0 <= i < old(t).entries@.len() ==> key_start(#[trigger] old(t).entries@[i].key) < key_start(
                e.key,
            )) ==> in_source_order(*final(t)),
{
    t.entries.push(e);
    assert forall|i: int| 0 <= i < t.entries@.len() implies (#[trigger] t.entries@[i]).key.within(n)
        && item_within(t.entries@[i].value, n) by {
        if i < old(t).entries@.len() {
            assert(t.entries@[i] == old(t).entries@[i]);
        }
    }
    proof {
        if in_source_order(*old(t)) && 0 <= key_start(e.key) && (forall|i: int|
            0 <= i < old(t).entries@.len() ==> key_start(#[trigger] old(t).entries@[i].key) < key_start(
                e.key,
            )) {
        assert forall|i: int| 0 <= i < t.entries@.len() implies 0 <= key_start(
            #[trigger] t.entries@[i].key,
        ) by {
            if i < old(t).entries@.len() {
                assert(t.entries@[i] == old(t).entries@[i]);
            } else {
                assert(t.entries@[i] == e);
            }
        }
        assert forall|i: int, j: int| 0 <= i < j < t.entries@.len() implies key_start(
            #[trigger] t.entries@[i].key,
        ) < key_start(#[trigger] t.entries@[j].key) by {
            assert(t.entries@[i] == old(t).entries@[i]);
            if j < old(t).entries@.len() {
                assert(t.entries@[j] == old(t).entries@[j]);
            } else {
                assert(t.entries@[j] == e);
            }
        }
        }
    }
}

/// Reads a document: lines of `key = value`, `[table]` headers, comments
/// and blank lines. Every text of the resulting tree is a span into `src`,
/// and keys are unique in each table.
#[verifier::rlimit(100)]
pub fn parse_document(src: &str) -> (r: Result<(Item, RawString), TomlError>)
    ensures
        match r {
            Ok((root, trailing)) => root is Table && root->Table_0.wf() && item_within(
                root,
                src@.len(),
            ) && trailing.within(src@.len()) && in_source_order(root->Table_0),
            Err(e) => e.offset <= src@.len(),
        },
        src@.len() == 0 ==> r is Ok && r->Ok_0.0->Table_0.entries@.len() == 0 && r->Ok_0.1.text(
            src@,
        ).len() == 0,
        r is Ok ==> syntax_ok(src@),
        r is Err && r->Err_0.kind != ErrorKind::DuplicateKey ==> !syntax_ok(src@),
        r is Err && r->Err_0.kind == ErrorKind::DuplicateKey ==> exists|p: int, o: int|
            #[trigger] defines_twice(src@, p, o) && line_key(src@, o) == r->Err_0.offset,
        syntax_ok(src@) && keys_unique_per_table(src@) ==> r is Ok,
        r is Ok ==> keys_unique_per_table(src@),
        r is Ok ==> parsed_root(src@, r->Ok_0.0->Table_0) && r->Ok_0.1 is Spanned && is_tail_start(
            src@,
            r->Ok_0.1->start as int,
        ) && r->Ok_0.1->end == src@.len(),
{
    let cs = chars_of(src);
    let n = cs.len();
    let ghost nn = n as nat;
    let mut root = Table::with_pos(Some(0));
    let mut open_key: Option<Key> = None;
    let mut open_table = Table::new();
    let mut pending: usize = 0;
    let mut pos: usize = 0;
    let ghost mut root_lines: Seq<int> = Seq::empty();
    let ghost mut open_lines: Seq<int> = Seq::empty();
    let ghost mut open_header: int = -1;
    loop
        invariant_except_break
            pending <= pos,
            forall|i: int| 0 <= i < root.entries@.len() ==> key_start(#[trigger] root.entries@[i].key) < pos,
            forall|i: int| 0 <= i < open_table.entries@.len() ==> key_start(#[trigger] open_table.entries@[i].key) < pos,
            open_key is Some ==> key_start(open_key->Some_0) < pos,
            forall|k: int| 0 <= k < root_lines.len() ==> 0 <= #[trigger] root_lines[k] < pos,
            forall|k: int| 0 <= k < open_lines.len() ==> open_header < #[trigger] open_lines[k] < pos,
            open_key is Some ==> 0 <= open_header < pos && !header_between(cs@, open_header, pos as int),
            open_key is None ==> !header_between(cs@, -1, pos as int) && open_lines.len() == 0,
            forall|p: int| #[trigger] is_line_start(cs@, p) && pending <= p < pos ==> !is_element_line(cs@, p),
            open_key is Some ==> forall|q: int| #[trigger] in_section(cs@, open_header, q) && q < pos ==> exists|k: int|
                0 <= k < open_lines.len() && #[trigger] open_lines[k] == q,
        invariant
            pending == 0 || exists|q: int| #[trigger] is_element_line(cs@, q) && pending == after_line(cs@, q),
            root_lines.len() == root.entries@.len(),
            open_lines.len() == open_table.entries@.len(),
            forall|k: int| 0 <= k < root_lines.len() ==> line_key(cs@, #[trigger] root_lines[k])
                == key_start(root.entries@[k].key) && (is_header_line(cs@, root_lines[k]) || (
                is_keyval_line(cs@, root_lines[k]) && !header_between(cs@, -1, root_lines[k]))),
            forall|k: int| 0 <= k < open_lines.len() ==> line_key(cs@, #[trigger] open_lines[k])
                == key_start(open_table.entries@[k].key) && is_keyval_line(cs@, open_lines[k]),
            forall|k: int| 0 <= k < open_lines.len() ==> pair_of_line(cs@, #[trigger] open_lines[k], open_table.entries@[k]),
            open_key is Some ==> forall|k: int| 0 <= k < open_lines.len() ==> in_section(cs@, open_header, #[trigger] open_lines[k]),
            open_key is Some ==> is_header_line(cs@, open_header) && line_key(cs@, open_header)
                == key_start(open_key->Some_0),
            forall|k: int| 0 <= k < root_lines.len() ==> entry_of_line(cs@, #[trigger] root_lines[k], root.entries@[k]),
            forall|p: int| #[trigger] is_root_line(cs@, p) && p < pos ==> (exists|k: int|
                0 <= k < root_lines.len() && #[trigger] root_lines[k] == p) || (open_key is Some
                && p == open_header),
            in_source_order(root),
            in_source_order(open_table),
            open_key is Some ==> 0 <= key_start(open_key->Some_0) && forall|i: int|
                0 <= i < root.entries@.len() ==> key_start(#[trigger] root.entries@[i].key) < key_start(open_key->Some_0),
            cs@ == src@,
            n == cs@.len(),
            nn == n,
            pending <= n,
            pos <= n,
            root.wf(),
            item_within(Item::Table(root), nn),
            open_table.wf(),
            item_within(Item::Table(open_table), nn),
            n == 0 ==> root.entries@.len() == 0 && open_key is None,
            forall|k: int| 0 <= k < root.entries@.len() ==> key_written(cs@, #[trigger] root.entries@[k].key),
            forall|k: int| 0 <= k < open_table.entries@.len() ==> key_written(cs@, #[trigger] open_table.entries@[k].key),
            open_key is Some ==> key_written(cs@, open_key->Some_0),
            is_line_start(cs@, pos as int),
            forall|p: int| #[trigger] is_line_start(cs@, p) && p < pos ==> line_ok(
                cs@,
                p,
                scan_end(cs@, p, n as int, 3),
            ),
            open_key is Some ==> open_key->Some_0.within(nn) && forall|i: int|
                0 <= i < root.entries@.len() ==> #[trigger] root.entries@[i].key.name@
                    != open_key->Some_0.name@,
        ensures
            syntax_ok(cs@),
            is_tail_start(cs@, pending as int),
            open_key is Some ==> forall|q: int| #[trigger] in_section(cs@, open_header, q) ==> exists|k: int|
                0 <= k < open_lines.len() && #[trigger] open_lines[k] == q,
            forall|p: int| #[trigger] is_root_line(cs@, p) ==> (exists|k: int|
                0 <= k < root_lines.len() && #[trigger] root_lines[k] == p) || (open_key is Some
                && p == open_header),
        decreases n + 1 - pos,
    {
        let le = line_end(&cs, pos);
        let i = skip_ws(&cs, pos, le);
        assert(line_stop(cs@, pos as int) == le as int);
        assert(line_first(cs@, pos as int) == i as int);
        let ghost lines0 = root_lines;
        let ghost open0 = open_key is Some;
        let ghost header0 = open_header;
        let ghost pending0 = pending;
        let ghost olines0 = open_lines;
        let ghost bad_line = !line_ok(cs@, pos as int, le as int);
        proof {
            if bad_line {
                assert(!syntax_ok(cs@)) by {
                    assert(is_line_start(cs@, pos as int));
                }
            }
        }
        if i == le || cs[i] == '#' {
        } else if cs[i] == '[' {
            let j = skip_ws(&cs, i + 1, le);
            let ke = scan_key(&cs, j, le);
            if ke == j {
                proof {
                    assert(!line_ok(cs@, pos as int, le as int)) by {
                        reveal(line_ok);
                    }
                }
                return Err(TomlError { kind: ErrorKind::InvalidKey, offset: j });
            }
            let k2 = skip_ws(&cs, ke, le);
            if k2 == le || cs[k2] != ']' {
                proof {
                    assert(!line_ok(cs@, pos as int, le as int)) by {
                        reveal(line_ok);
                    }
                }
                return Err(TomlError { kind: ErrorKind::UnexpectedChar, offset: k2 });
            }
            let t = skip_ws(&cs, k2 + 1, le);
            if t < le && cs[t] != '#' {
                proof {
                    assert(!line_ok(cs@, pos as int, le as int)) by {
                        reveal(line_ok);
                    }
                }
                return Err(TomlError { kind: ErrorKind::UnexpectedChar, offset: t });
            }
            proof {
                if open_key is Some {
                    assert(is_header_line(cs@, pos as int));
                    assert forall|q: int| #[trigger] in_section(cs@, open_header, q) implies exists|k: int|
                        0 <= k < open_lines.len() && #[trigger] open_lines[k] == q by {
                        if q > pos {
                            assert(open_header < pos < q && is_header_line(cs@, pos as int));
                        }
                    }
                    lemma_section_done(cs@, open_header, open_table, open_lines);
                }
            }
            match open_key {
                Some(k) => {
                    let done = TableEntry { key: k, value: Item::Table(open_table) };
                    push_new(&mut root, done, Ghost(nn));
                    proof {
                        root_lines = root_lines.push(open_header);
                    }
                },
                None => {},
            }
            let name = String::from_str(src.substring_char(j, ke));
            proof {
                if j > i + 1 {
                    assert(is_ws(cs@[j - 1]));
                }
                lemma_key_run(cs@, j as int, ke as int, le as int);
            }
            match root.position_of(name.as_str()) {
                Some(idx) => {
                    proof {
                        let p = key_start(root.entries@[idx as int].key);
                        assert(key_written(cs@, root.entries@[idx as int].key));
                        assert(key_text_at(cs@, p) == key_text_at(cs@, j as int));
                        assert(is_header_line(cs@, pos as int));
                        assert(line_key(cs@, pos as int) == j);
                        assert(defines_twice(cs@, root_lines[idx as int], pos as int));
                    }
                    return Err(TomlError { kind: ErrorKind::DuplicateKey, offset: j });
                },
                None => {},
            }
            open_key = Some(
                Key {
                    name,
                    repr: RawString::Spanned { start: j, end: ke },
                    decor: Decor {
                        prefix: RawString::Spanned { start: i + 1, end: j },
                        suffix: RawString::Spanned { start: ke, end: k2 },
                    },
                },
            );
            open_table = Table {
                entries: Vec::new(),
                decor: Decor {
                    prefix: RawString::Spanned { start: pending, end: i },
                    suffix: RawString::Spanned { start: k2 + 1, end: le },
                },
                position: Some(i),
            };
            proof {
                open_header = pos as int;
                open_lines = Seq::empty();
            }
            pending = next_line(&cs, le);
        } else {
            let ke = scan_key(&cs, i, le);
            if ke == i {
                proof {
                    assert(!line_ok(cs@, pos as int, le as int)) by {
                        reveal(line_ok);
                    }
                }
                return Err(TomlError { kind: ErrorKind::InvalidKey, offset: i });
            }
            let e = skip_ws(&cs, ke, le);
            if e == le || cs[e] != '=' {
                proof {
                    assert(!line_ok(cs@, pos as int, le as int)) by {
                        reveal(line_ok);
                    }
                }
                return Err(TomlError { kind: ErrorKind::UnexpectedChar, offset: e });
            }
            let vs = skip_ws(&cs, e + 1, le);
            let (scalar, ve) = match parse_value(&cs, src, vs, le) {
                Ok(v) => v,
                Err(err) => {
                    proof {
                        assert(!line_ok(cs@, pos as int, le as int)) by {
                            reveal(line_ok);
                        }
                    }
                    return Err(err);
                },
            };
            let t = skip_ws(&cs, ve, le);
            if t < le && cs[t] != '#' {
                proof {
                    assert(!line_ok(cs@, pos as int, le as int)) by {
                        reveal(line_ok);
                    }
                }
                return Err(TomlError { kind: ErrorKind::UnexpectedChar, offset: t });
            }
            let name = String::from_str(src.substring_char(i, ke));
            proof {
                if i > pos {
                    assert(is_ws(cs@[i - 1]));
                }
                lemma_key_run(cs@, i as int, ke as int, le as int);
            }
            let entry = TableEntry {
                key: Key {
                    name,
                    repr: RawString::Spanned { start: i, end: ke },
                    decor: Decor {
                        prefix: RawString::Spanned { start: pending, end: i },
                        suffix: RawString::Spanned { start: ke, end: e },
                    },
                },
                value: Item::Value(
                    Value {
                        scalar,
                        repr: RawString::Spanned { start: vs, end: ve },
                        decor: Decor {
                            prefix: RawString::Spanned { start: e + 1, end: vs },
                            suffix: RawString::Spanned { start: ve, end: le },
                        },
                    },
                ),
            };
            if open_key.is_some() {
                match open_table.position_of(entry.key.name.as_str()) {
                    Some(idx) => {
                        proof {
                            let p = key_start(open_table.entries@[idx as int].key);
                            assert(key_written(cs@, open_table.entries@[idx as int].key));
                            assert(key_text_at(cs@, p) == key_text_at(cs@, i as int));
                            assert(is_keyval_line(cs@, pos as int));
                            assert(line_key(cs@, pos as int) == i);
                            let pl = open_lines[idx as int];
                            assert(!header_between(cs@, pl, pos as int)) by {
                                if header_between(cs@, pl, pos as int) {
                                    let q = choose|q: int| pl < q < pos && #[trigger] is_header_line(cs@, q);
                                    assert(open_header < q < pos && is_header_line(cs@, q));
                                }
                            }
                            assert(defines_twice(cs@, pl, pos as int));
                        }
                        return Err(TomlError { kind: ErrorKind::DuplicateKey, offset: i });
                    },
                    None => {},
                }
                push_new(&mut open_table, entry, Ghost(nn));
                proof {
                    open_lines = open_lines.push(pos as int);
                }
            } else {
                match root.position_of(entry.key.name.as_str()) {
                    Some(idx) => {
                        proof {
                            let p = key_start(root.entries@[idx as int].key);
                            assert(key_written(cs@, root.entries@[idx as int].key));
                            assert(key_text_at(cs@, p) == key_text_at(cs@, i as int));
                            assert(is_keyval_line(cs@, pos as int));
                            assert(line_key(cs@, pos as int) == i);
                            let pl = root_lines[idx as int];
                            if is_header_line(cs@, pl) {
                                assert(-1 < pl < pos && is_header_line(cs@, pl));
                            }
                            assert(!header_between(cs@, pl, pos as int)) by {
                                if header_between(cs@, pl, pos as int) {
                                    let q = choose|q: int| pl < q < pos && #[trigger] is_header_line(cs@, q);
                                    assert(-1 < q < pos && is_header_line(cs@, q));
                                }
                            }
                            assert(defines_twice(cs@, pl, pos as int));
                        }
                        return Err(TomlError { kind: ErrorKind::DuplicateKey, offset: i });
                    },
                    None => {},
                }
                push_new(&mut root, entry, Ghost(nn));
                proof {
                    root_lines = root_lines.push(pos as int);
                }
            }
            pending = next_line(&cs, le);
        }
        proof {
            assert(root_lines.len() >= lines0.len());
            assert(forall|k: int| 0 <= k < lines0.len() ==> root_lines[k] == lines0[k]);
            assert(open0 && open_key is None ==> false);
            assert forall|p: int| #[trigger] is_root_line(cs@, p) && p <= le implies (exists|k: int|
                0 <= k < root_lines.len() && #[trigger] root_lines[k] == p) || (open_key is Some
                && p == open_header) by {
                if p < pos {
                    if exists|k: int| 0 <= k < lines0.len() && #[trigger] lines0[k] == p {
                        let k = choose|k: int| 0 <= k < lines0.len() && #[trigger] lines0[k] == p;
                        assert(root_lines[k] == p);
                    } else {
                        assert(open0 && p == header0);
                        if open_header != header0 {
                            assert(root_lines[lines0.len() as int] == p);
                        }
                    }
                } else if p == pos {
                    if is_keyval_line(cs@, p) {
                        if open0 {
                            assert(-1 < header0 < pos && is_header_line(cs@, header0));
                        }
                        assert(root_lines[lines0.len() as int] == p);
                    }
                } else {
                    assert(cs@[p - 1] == '\n');
                    lemma_scan_end_past(cs@, pos as int, n as int, 3, pos as int);
                    assert(in_class(3, cs@[p - 1]));
                }
            }
            assert(line_ok(cs@, pos as int, le as int)) by {
                reveal(line_ok);
            }
            lemma_scan_end_past(cs@, pos as int, n as int, 3, pos as int);
            if open_key is Some {
                assert forall|q: int| #[trigger] in_section(cs@, open_header, q) && q <= le implies exists|k: int|
                    0 <= k < open_lines.len() && #[trigger] open_lines[k] == q by {
                    if q > pos {
                        assert(in_class(3, cs@[q - 1]));
                    } else if q == pos {
                        assert(open_lines[olines0.len() as int] == q);
                    } else {
                        if open_header == header0 && open0 {
                            let k = choose|k: int| 0 <= k < olines0.len() && #[trigger] olines0[k] == q;
                            assert(open_lines[k] == q);
                        } else {
                            assert(open_header == pos);
                        }
                    }
                }
            }
            if is_element_line(cs@, pos as int) {
                assert(pending == after_line(cs@, pos as int));
            } else {
                assert(pending == pending0);
            }
            assert forall|p: int| #[trigger] is_line_start(cs@, p) && pending <= p <= le implies !is_element_line(cs@, p) by {
                if pos < p {
                    assert(in_class(3, cs@[p - 1]));
                }
            }
            assert forall|p: int| #[trigger] is_line_start(cs@, p) && p <= le implies line_ok(
                cs@,
                p,
                scan_end(cs@, p, n as int, 3),
            ) by {
                if pos < p {
                    assert(cs@[p - 1] != '\n');
                }
            }
        }
        if le == n {
            proof {
                assert forall|p: int| #[trigger] is_line_start(cs@, p) implies line_ok(
                    cs@,
                    p,
                    scan_end(cs@, p, n as int, 3),
                ) by {
                    assert(p <= le);
                }
                assert forall|p: int| #[trigger] is_line_start(cs@, p) && pending <= p implies !is_element_line(cs@, p) by {
                    assert(p <= le);
                }
                if open_key is Some {
                    assert forall|q: int| #[trigger] in_section(cs@, open_header, q) implies exists|k: int|
                        0 <= k < open_lines.len() && #[trigger] open_lines[k] == q by {
                        assert(is_line_start(cs@, q));
                        assert(q <= le);
                    }
                }
                assert forall|p: int| #[trigger] is_root_line(cs@, p) implies (exists|k: int|
                    0 <= k < root_lines.len() && #[trigger] root_lines[k] == p) || (open_key is Some
                    && p == open_header) by {
                    assert(is_line_start(cs@, p));
                    assert(p <= le);
                }
            }
            break;
        }
        proof {
            lemma_header_step(cs@, -1, pos as int, le as int);
            if open_key is Some {
                lemma_header_step(cs@, open_header, pos as int, le as int);
            }
        }
        pos = le + 1;
    }
    let ghost lines_before = root_lines;
    let ghost had_open = open_key is Some;
    proof {
        if open_key is Some {
            lemma_section_done(cs@, open_header, open_table, open_lines);
        }
    }
    match open_key {
        Some(k) => {
            let done = TableEntry { key: k, value: Item::Table(open_table) };
            push_new(&mut root, done, Ghost(nn));
            proof {
                root_lines = root_lines.push(open_header);
            }
        },
        None => {},
    }
    assert(parsed_root(cs@, root)) by {
        assert forall|k: int| 0 <= k < root.entries@.len() implies from_root_line(cs@, #[trigger] root.entries@[k]) by {
            assert(entry_of_line(cs@, root_lines[k], root.entries@[k]));
            assert(is_root_line(cs@, root_lines[k]));
        }
        assert forall|p: int| #[trigger] is_root_line(cs@, p) implies has_entry_for_line(cs@, root, p) by {
            if exists|k: int| 0 <= k < lines_before.len() && #[trigger] lines_before[k] == p {
                let k = choose|k: int| 0 <= k < lines_before.len() && #[trigger] lines_before[k] == p;
                assert(root_lines[k] == p);
                assert(entry_of_line(cs@, root_lines[k], root.entries@[k]));
            } else {
                assert(had_open && p == open_header);
                let k = lines_before.len() as int;
                assert(root_lines[k] == p);
                assert(entry_of_line(cs@, root_lines[k], root.entries@[k]));
            }
        }
    }
    assert(is_tail_start(cs@, pending as int));
    proof {
        lemma_parsed_unique(cs@, root);
    }
    Ok((Item::Table(root), RawString::Spanned { start: pending, end: n }))
}

} // verus!
