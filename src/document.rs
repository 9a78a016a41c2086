use vstd::prelude::*;

use crate::item::{
    Item,
    Table,
    TableEntry,
    despan_item,
    in_source_order,
    item_detached,
    item_detached_from,
    item_within,
    key_names,
};
use crate::parser::{
    ErrorKind,
    TomlError,
    defines_twice,
    is_tail_start,
    keys_unique_per_table,
    parsed_root,
    line_key,
    parse_document,
    syntax_ok,
};
use crate::raw_string::RawString;

verus! {

/// A parsed document, tied to the text it was parsed from: its texts are
/// spans into that text.
pub struct ImDocument {
    root: Item,
    trailing: RawString,
    raw: String,
}

impl ImDocument {
    /// The root of the tree.
    pub closed spec fn root_item(&self) -> Item {
        self.root
    }

    /// Whitespace and comments after the last element.
    pub closed spec fn trailing_raw(&self) -> RawString {
        self.trailing
    }

    /// The source text.
    pub closed spec fn source(&self) -> Seq<char> {
        self.raw@
    }

    /// The root table.
    pub open spec fn root_table(&self) -> Table {
        self.root_item()->Table_0
    }

    /// The root is a table with unique keys, and every span lies in the source.
    #[verifier::type_invariant]
    pub closed spec fn inv(&self) -> bool {
        self.root is Table && self.root->Table_0.wf() && item_within(self.root, self.raw@.len())
            && self.trailing.within(self.raw@.len())
    }

    /// An empty document.
    pub fn new() -> (r: ImDocument)
        ensures
            r.root_item() is Table,
            r.root_table().entries@.len() == 0,
            r.root_table().position == Some(0usize),
            r.root_table().decor.prefix is Empty,
            r.root_table().decor.suffix is Empty,
            r.trailing_raw() is Empty,
            r.source().len() == 0,
    {
        ImDocument { root: Item::Table(Table::with_pos(Some(0))), trailing: RawString::Empty, raw: String::new() }
    }

    /// Parses a document; on success the document holds `raw` as its source.
    pub fn parse(raw: String) -> (r: Result<ImDocument, TomlError>)
        ensures
            match r {
                Ok(doc) => doc.source() == raw@ && doc.root_item() is Table && doc.root_table().wf()
                    && in_source_order(doc.root_table()) && parsed_root(raw@, doc.root_table())
                    && item_within(doc.root_item(), raw@.len()) && doc.trailing_raw().within(raw@.len())
                    && doc.trailing_raw() is Spanned && doc.trailing_raw()->end == raw@.len()
                    && is_tail_start(raw@, doc.trailing_raw()->start as int),
                Err(e) => e.offset <= raw@.len(),
            },
            raw@.len() == 0 ==> r is Ok && r->Ok_0.root_table().entries@.len() == 0
                && r->Ok_0.trailing_raw().text(raw@).len() == 0,
            r is Ok ==> syntax_ok(raw@),
            r is Ok ==> keys_unique_per_table(raw@),
            r is Err && r->Err_0.kind != ErrorKind::DuplicateKey ==> !syntax_ok(raw@),
            r is Err && r->Err_0.kind == ErrorKind::DuplicateKey ==> exists|p: int, o: int|
                #[trigger] defines_twice(raw@, p, o) && line_key(raw@, o) == r->Err_0.offset,
            syntax_ok(raw@) && keys_unique_per_table(raw@) ==> r is Ok,
    {
        match parse_document(raw.as_str()) {
            Ok((root, trailing)) => Ok(ImDocument { root, trailing, raw }),
            Err(e) => Err(e),
        }
    }

    /// Parses a copy of `s`.
    pub fn from_str(s: &str) -> (r: Result<ImDocument, TomlError>)
        ensures
            match r {
                Ok(doc) => doc.source() == s@ && doc.root_item() is Table && doc.root_table().wf()
                    && in_source_order(doc.root_table()) && parsed_root(s@, doc.root_table())
                    && item_within(doc.root_item(), s@.len()) && doc.trailing_raw().within(s@.len())
                    && doc.trailing_raw() is Spanned && doc.trailing_raw()->end == s@.len()
                    && is_tail_start(s@, doc.trailing_raw()->start as int),
                Err(e) => e.offset <= s@.len(),
            },
            s@.len() == 0 ==> r is Ok && r->Ok_0.root_table().entries@.len() == 0
                && r->Ok_0.trailing_raw().text(s@).len() == 0,
            r is Ok ==> syntax_ok(s@),
            r is Ok ==> keys_unique_per_table(s@),
            r is Err && r->Err_0.kind != ErrorKind::DuplicateKey ==> !syntax_ok(s@),
            r is Err && r->Err_0.kind == ErrorKind::DuplicateKey ==> exists|p: int, o: int|
                #[trigger] defines_twice(s@, p, o) && line_key(s@, o) == r->Err_0.offset,
            syntax_ok(s@) && keys_unique_per_table(s@) ==> r is Ok,
    {
        ImDocument::parse(s.to_owned())
    }

    /// The root item.
    pub fn as_item(&self) -> (r: &Item)
        ensures
            *r == self.root_item(),
    {
        &self.root
    }

    /// The root table.
    pub fn as_table(&self) -> (r: &Table)
        ensures
            *r == self.root_table(),
            r.wf(),
    {
        proof {
            use_type_invariant(self);
        }
        self.root.as_table().unwrap()
    }

    /// The top-level entries, in source order.
    pub fn iter(&self) -> (r: &[TableEntry])
        ensures
            r@ == self.root_table().entries@,
    {
        self.as_table().iter()
    }

    /// Forwards to the root table: the item stored under `name`, if any.
    pub fn get(&self, name: &str) -> (r: Option<&Item>)
        ensures
            match self.root_table().index_of(name@) {
                Some(i) => r is Some && *r->Some_0 == self.root_table().entries@[i].value,
                None => r is None,
            },
    {
        self.as_table().get(name)
    }

    /// Forwards to the root table: whether an entry is named `name`.
    pub fn contains_key(&self, name: &str) -> (r: bool)
        ensures
            r == exists|i: int|
                0 <= i < self.root_table().entries@.len()
                    && #[trigger] self.root_table().entries@[i].key.name@ == name@,
    {
        self.as_table().contains_key(name)
    }

    /// Forwards to the root table: the number of top-level entries.
    pub fn len(&self) -> (r: usize)
        ensures
            r == self.root_table().entries@.len(),
    {
        self.as_table().len()
    }

    /// Forwards to the root table: whether there are no top-level entries.
    pub fn is_empty(&self) -> (r: bool)
        ensures
            r == (self.root_table().entries@.len() == 0),
    {
        self.as_table().is_empty()
    }

    /// Whitespace and comments after the last element.
    pub fn trailing(&self) -> (r: &RawString)
        ensures
            *r == self.trailing_raw(),
    {
        &self.trailing
    }

    /// The text the document was parsed from.
    pub fn raw(&self) -> (r: &str)
        ensures
            r@ == self.source(),
    {
        self.raw.as_str()
    }

    /// Turns the document into an editable one: every span is replaced by
    /// an owned copy of the text it covers.
    pub fn into_mut(self) -> (r: Document)
        ensures
            r.root_item() is Table,
            item_detached_from(r.root_item(), self.root_item(), self.source()),
            item_detached(r.root_item()),
            r.trailing_raw().detached_from(self.trailing_raw(), self.source()),
            r.trailing_raw().is_detached(),
            r.source() == Some(self.source()),
            key_names(r.root_table()) == key_names(self.root_table()),
            r.root_table().wf(),
    {
        proof {
            use_type_invariant(&self);
        }
        let ghost prev = self;
        let mut doc = self.into_spanned_document();
        doc.despan();
        proof {
            lemma_detached_keeps_keys(doc.root_item(), prev.root_item(), prev.source());
            let a = doc.root_table().entries@;
            let b = prev.root_table().entries@;
            assert forall|i: int, j: int| 0 <= i < j < a.len() implies #[trigger] a[i].key.name@
                != #[trigger] a[j].key.name@ by {
                assert(key_names(doc.root_table())[i] == key_names(prev.root_table())[i]);
                assert(key_names(doc.root_table())[j] == key_names(prev.root_table())[j]);
                assert(b[i].key.name@ != b[j].key.name@);
            }
        }
        doc
    }

    pub(crate) fn into_spanned_document(self) -> (r: Document)
        ensures
            r.root_item() == self.root_item(),
            r.trailing_raw() == self.trailing_raw(),
            r.source() == Some(self.source()),
    {
        Document { root: self.root, trailing: self.trailing, raw: Some(self.raw) }
    }
}

impl std::str::FromStr for ImDocument {
    type Err = TomlError;

    fn from_str(s: &str) -> Result<ImDocument, TomlError> {
        ImDocument::from_str(s)
    }
}

impl std::str::FromStr for Document {
    type Err = TomlError;

    fn from_str(s: &str) -> Result<Document, TomlError> {
        Document::from_str(s)
    }
}

impl Default for ImDocument {
    fn default() -> (r: ImDocument)
        ensures
            r.root_item() is Table,
            r.root_table().entries@.len() == 0,
            r.root_table().position == Some(0usize),
            r.root_table().decor.prefix is Empty,
            r.root_table().decor.suffix is Empty,
            r.trailing_raw() is Empty,
            r.source().len() == 0,
    {
        ImDocument::new()
    }
}

/// An editable document, independent of any source text.
pub struct Document {
    root: Item,
    trailing: RawString,
    raw: Option<String>,
}

impl Document {
    /// The root of the tree.
    pub closed spec fn root_item(&self) -> Item {
        self.root
    }

    /// Whitespace and comments after the last element.
    pub closed spec fn trailing_raw(&self) -> RawString {
        self.trailing
    }

    /// The text the document was parsed from, if it was.
    pub closed spec fn source(&self) -> Option<Seq<char>> {
        match self.raw {
            Some(s) => Some(s@),
            None => None,
        }
    }

    /// The root table.
    pub open spec fn root_table(&self) -> Table {
        self.root_item()->Table_0
    }

    /// An empty document.
    pub fn new() -> (r: Document)
        ensures
            r.root_item() is Table,
            r.root_table().entries@.len() == 0,
            r.root_table().position == Some(0usize),
            r.root_table().decor.prefix is Empty,
            r.root_table().decor.suffix is Empty,
            r.trailing_raw() is Empty,
            r.source() is None,
    {
        Document { root: Item::Table(Table::with_pos(Some(0))), trailing: RawString::Empty, raw: None }
    }

    /// Parses `s` and makes the result editable.
    pub fn from_str(s: &str) -> (r: Result<Document, TomlError>)
        ensures
            match r {
                Ok(doc) => doc.root_item() is Table && doc.root_table().wf() && item_detached(doc.root_item())
                    && doc.trailing_raw().is_detached() && doc.source() == Some(s@) && (exists|t: Table|
                    parsed_root(s@, t) && #[trigger] item_detached_from(doc.root_item(), Item::Table(t), s@))
                    && (exists|tr: RawString|
                    tr is Spanned && tr->end == s@.len() && is_tail_start(s@, tr->start as int)
                        && #[trigger] doc.trailing_raw().detached_from(tr, s@)),
                Err(e) => e.offset <= s@.len(),
            },
            s@.len() == 0 ==> r is Ok && r->Ok_0.root_table().entries@.len() == 0
                && r->Ok_0.trailing_raw().text(s@).len() == 0,
            r is Ok ==> syntax_ok(s@),
            r is Ok ==> keys_unique_per_table(s@),
            r is Err && r->Err_0.kind != ErrorKind::DuplicateKey ==> !syntax_ok(s@),
            r is Err && r->Err_0.kind == ErrorKind::DuplicateKey ==> exists|p: int, o: int|
                #[trigger] defines_twice(s@, p, o) && line_key(s@, o) == r->Err_0.offset,
            syntax_ok(s@) && keys_unique_per_table(s@) ==> r is Ok,
    {
        match ImDocument::from_str(s) {
            Ok(im) => {
                let doc = im.into_mut();
                Ok(doc)
            },
            Err(e) => Err(e),
        }
    }

    /// A document whose root is `root`, with no trailing text and no source.
    pub fn from_table(root: Table) -> (r: Document)
        ensures
            r.root_item() == Item::Table(root),
            r.trailing_raw() is Empty,
            r.source() is None,
    {
        Document { root: Item::Table(root), trailing: RawString::Empty, raw: None }
    }

    /// The root item.
    pub fn as_item(&self) -> (r: &Item)
        ensures
            *r == self.root_item(),
    {
        &self.root
    }

    /// The root item, for editing.
    pub fn as_item_mut(&mut self) -> (r: &mut Item)
        ensures
            *r == old(self).root_item(),
            final(self).root_item() == *final(r),
            final(self).trailing_raw() == old(self).trailing_raw(),
            final(self).source() == old(self).source(),
    {
        &mut self.root
    }

    /// The root table.
    pub fn as_table(&self) -> (r: &Table)
        requires
            self.root_item() is Table,
        ensures
            *r == self.root_table(),
    {
        self.root.as_table().unwrap()
    }

    /// The root table, for editing.
    pub fn as_table_mut(&mut self) -> (r: &mut Table)
        requires
            old(self).root_item() is Table,
        ensures
            *r == old(self).root_table(),
            final(self).root_item() == Item::Table(*final(r)),
            final(self).trailing_raw() == old(self).trailing_raw(),
            final(self).source() == old(self).source(),
    {
        self.root.as_table_mut().unwrap()
    }

    /// The top-level entries, in order.
    pub fn iter(&self) -> (r: &[TableEntry])
        requires
            self.root_item() is Table,
        ensures
            r@ == self.root_table().entries@,
    {
        self.as_table().iter()
    }

    /// Sets the whitespace and comments after the last element.
    pub fn set_trailing(&mut self, trailing: RawString)
        ensures
            final(self).trailing_raw() == trailing,
            final(self).root_item() == old(self).root_item(),
            final(self).source() == old(self).source(),
    {
        self.trailing = trailing;
    }

    /// Forwards to the root table: the item stored under `name`, if any.
    pub fn get(&self, name: &str) -> (r: Option<&Item>)
        requires
            self.root_item() is Table,
            self.root_table().wf(),
        ensures
            match self.root_table().index_of(name@) {
                Some(i) => r is Some && *r->Some_0 == self.root_table().entries@[i].value,
                None => r is None,
            },
    {
        self.as_table().get(name)
    }

    /// Forwards to the root table: whether an entry is named `name`.
    pub fn contains_key(&self, name: &str) -> (r: bool)
        requires
            self.root_item() is Table,
        ensures
            r == exists|i: int|
                0 <= i < self.root_table().entries@.len()
                    && #[trigger] self.root_table().entries@[i].key.name@ == name@,
    {
        self.as_table().contains_key(name)
    }

    /// Forwards to the root table: the number of top-level entries.
    pub fn len(&self) -> (r: usize)
        requires
            self.root_item() is Table,
        ensures
            r == self.root_table().entries@.len(),
    {
        self.as_table().len()
    }

    /// Forwards to the root table: whether there are no top-level entries.
    pub fn is_empty(&self) -> (r: bool)
        requires
            self.root_item() is Table,
        ensures
            r == (self.root_table().entries@.len() == 0),
    {
        self.as_table().is_empty()
    }

    /// Whitespace and comments after the last element.
    pub fn trailing(&self) -> (r: &RawString)
        ensures
            *r == self.trailing_raw(),
    {
        &self.trailing
    }

    /// Replaces every span of the tree and of the trailing text by an owned
    /// copy of the source text it covers.
    pub(crate) fn despan(&mut self)
        requires
            old(self).source() is Some,
            item_within(old(self).root_item(), old(self).source()->Some_0.len()),
            old(self).trailing_raw().within(old(self).source()->Some_0.len()),
        ensures
            item_detached_from(final(self).root_item(), old(self).root_item(), old(self).source()->Some_0),
            item_detached(final(self).root_item()),
            final(self).trailing_raw().detached_from(old(self).trailing_raw(), old(self).source()->Some_0),
            final(self).trailing_raw().is_detached(),
            final(self).source() == old(self).source(),
    {
        match &self.raw {
            Some(raw) => {
                let mut root = Item::Empty;
                core::mem::swap(&mut root, &mut self.root);
                self.root = despan_item(root, raw.as_str());
                let mut trailing = RawString::Empty;
                core::mem::swap(&mut trailing, &mut self.trailing);
                self.trailing = trailing.despan(raw.as_str());
            },
            None => {},
        }
    }
}

impl From<Table> for Document {
    fn from(root: Table) -> (r: Document) {
        Document::from_table(root)
    }
}

impl vstd::std_specs::convert::FromSpecImpl<Table> for Document {
    open spec fn obeys_from_spec() -> bool {
        true
    }

    closed spec fn from_spec(root: Table) -> Document {
        Document { root: Item::Table(root), trailing: RawString::Empty, raw: None }
    }
}

/// What converting a table into a document gives: the table as root, no
/// trailing text and no source.
pub proof fn lemma_document_from_table(root: Table)
    ensures
        ({
            let d = <Document as vstd::std_specs::convert::FromSpec<Table>>::from_spec(root);
            &&& <Document as vstd::std_specs::convert::FromSpec<Table>>::obeys_from_spec()
            &&& d.root_item() == Item::Table(root)
            &&& d.trailing_raw() is Empty
            &&& d.source() is None
        }),
{
}

impl Default for Document {
    fn default() -> (r: Document)
        ensures
            r.root_item() is Table,
            r.root_table().entries@.len() == 0,
            r.root_table().position == Some(0usize),
            r.root_table().decor.prefix is Empty,
            r.root_table().decor.suffix is Empty,
            r.trailing_raw() is Empty,
            r.source() is None,
    {
        Document::new()
    }
}

/// Detaching a table keeps its key names and their order.
pub proof fn lemma_detached_keeps_keys(now: Item, prev: Item, src: Seq<char>)
    requires
        prev is Table,
        item_detached_from(now, prev, src),
    ensures
        now is Table,
        key_names(now->Table_0) == key_names(prev->Table_0),
{
    let a = key_names(now->Table_0);
    let b = key_names(prev->Table_0);
    assert(a.len() == b.len());
    assert forall|i: int| 0 <= i < a.len() implies a[i] == b[i] by {
        assert(now->Table_0.entries@[i].key.detached_from(prev->Table_0.entries@[i].key, src));
    }
    assert(a =~= b);
}

} // verus!
