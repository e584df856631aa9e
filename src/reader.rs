//! Reading branch records and the selected-branch pointer from a store.
use vstd::prelude::*;
use crate::branch::Branch;
use crate::oid::{Oid, bytes_of_hex};
use crate::ownership::Ownership;
use crate::ownership_text::{parse_ownership, parse_line_spec, lines_parse};
use crate::store::{Store, SubReader, Error, scoped, bool_text};
use crate::text::{decimal_u128, text_lines, push_str};

verus! {

/// Where the id of the selected branch is stored.
pub open spec fn selected_path() -> Seq<char> {
    "branches/selected"@
}

/// The namespace of the record of branch `id`.
pub open spec fn branch_root(id: Seq<char>) -> Seq<char> {
    "branches/"@ + id
}

/// The value of field `f` of the record under `prefix`.
pub open spec fn field(s: Store, prefix: Seq<char>, f: Seq<char>) -> Option<Seq<char>> {
    s.value_at(scoped(prefix, f))
}

/// A stored ownership text reads as the list `v`, one entry per line.
pub open spec fn ownership_reads_as(t: Seq<char>, v: Seq<Ownership>) -> bool {
    &&& v.len() == text_lines(t).len()
    &&& forall|i: int| 0 <= i < v.len() ==> (#[trigger] v[i]).file_path@ == (parse_line_spec(text_lines(t)[i])->0).0
        && v[i].hunks@ == (parse_line_spec(text_lines(t)[i])->0).1
}

/// The fields of a record, in the order they are read.
pub open spec fn field_name(i: int) -> Seq<char> {
    if i == 0 { "id"@ } else if i == 1 { "meta/name"@ } else if i == 2 { "meta/applied"@ }
    else if i == 3 { "meta/upstream"@ } else if i == 4 { "meta/tree"@ } else if i == 5 { "meta/head"@ }
    else if i == 6 { "meta/created_timestamp_ms"@ } else if i == 7 { "meta/updated_timestamp_ms"@ }
    else { "meta/ownership"@ }
}

/// The field read in place `i` is present and decodes.
pub open spec fn field_ok(s: Store, prefix: Seq<char>, i: int) -> bool {
    let v = field(s, prefix, field_name(i));
    &&& v is Some
    &&& i == 2 ==> (v->0 == bool_text(true) || v->0 == bool_text(false))
    &&& (i == 4 || i == 5) ==> bytes_of_hex(v->0) is Some
    &&& (i == 6 || i == 7) ==> decimal_u128(v->0) is Some
    &&& i == 8 ==> lines_parse(text_lines(v->0))
}

/// Every field of the record under `prefix` is present and decodes.
pub open spec fn readable(s: Store, prefix: Seq<char>) -> bool {
    &&& field_ok(s, prefix, 0)
    &&& field_ok(s, prefix, 1)
    &&& field_ok(s, prefix, 2)
    &&& field_ok(s, prefix, 3)
    &&& field_ok(s, prefix, 4)
    &&& field_ok(s, prefix, 5)
    &&& field_ok(s, prefix, 6)
    &&& field_ok(s, prefix, 7)
    &&& field_ok(s, prefix, 8)
}

/// The place of field `f` in reading order.
pub open spec fn field_rank(f: Seq<char>) -> int {
    if f == "id"@ { 0 } else if f == "meta/name"@ { 1 } else if f == "meta/applied"@ { 2 }
    else if f == "meta/upstream"@ { 3 } else if f == "meta/tree"@ { 4 } else if f == "meta/head"@ { 5 }
    else if f == "meta/created_timestamp_ms"@ { 6 } else if f == "meta/updated_timestamp_ms"@ { 7 }
    else if f == "meta/ownership"@ { 8 } else { 9 }
}

/// Every field read before `f` is present and decodes.
pub open spec fn earlier_fields_ok(s: Store, prefix: Seq<char>, f: Seq<char>) -> bool {
    &&& field_rank(f) > 0 ==> field_ok(s, prefix, 0)
    &&& field_rank(f) > 1 ==> field_ok(s, prefix, 1)
    &&& field_rank(f) > 2 ==> field_ok(s, prefix, 2)
    &&& field_rank(f) > 3 ==> field_ok(s, prefix, 3)
    &&& field_rank(f) > 4 ==> field_ok(s, prefix, 4)
    &&& field_rank(f) > 5 ==> field_ok(s, prefix, 5)
    &&& field_rank(f) > 6 ==> field_ok(s, prefix, 6)
    &&& field_rank(f) > 7 ==> field_ok(s, prefix, 7)
}

/// `b` is what the fields of the record under `prefix` spell.
pub open spec fn reads_as(s: Store, prefix: Seq<char>, b: Branch) -> bool {
    &&& field(s, prefix, "id"@) == Some(b.id@)
    &&& field(s, prefix, "meta/name"@) == Some(b.name@)
    &&& field(s, prefix, "meta/applied"@) == Some(bool_text(b.applied))
    &&& field(s, prefix, "meta/upstream"@) == Some(b.upstream@)
    &&& bytes_of_hex(field(s, prefix, "meta/tree"@)->0) == Some(b.tree.bytes@)
    &&& bytes_of_hex(field(s, prefix, "meta/head"@)->0) == Some(b.head.bytes@)
    &&& decimal_u128(field(s, prefix, "meta/created_timestamp_ms"@)->0) == Some(b.created_timestamp_ms)
    &&& decimal_u128(field(s, prefix, "meta/updated_timestamp_ms"@)->0) == Some(b.updated_timestamp_ms)
    &&& ownership_reads_as(field(s, prefix, "meta/ownership"@)->0, b.ownership@)
}

/// `p` names a field of a branch record.
pub open spec fn is_field(p: Seq<char>) -> bool {
    p == "id"@ || p == "meta/name"@ || p == "meta/applied"@ || p == "meta/upstream"@ || p == "meta/tree"@
        || p == "meta/head"@ || p == "meta/created_timestamp_ms"@ || p == "meta/updated_timestamp_ms"@
        || p == "meta/ownership"@
}

/// Field `f` is the first fault of the record under `prefix`, by being
/// missing.
pub open spec fn missing_fault(s: Store, prefix: Seq<char>, f: Seq<char>) -> bool {
    is_field(f) && field(s, prefix, f) is None && earlier_fields_ok(s, prefix, f)
}

/// Field `f` is the first fault of the record under `prefix`, by a value that
/// does not decode; `value` is that value (for the ownership list, its first
/// line that does not decode).
pub open spec fn parse_fault(s: Store, prefix: Seq<char>, f: Seq<char>, value: Seq<char>) -> bool {
    let v = field(s, prefix, f);
    &&& v is Some
    &&& earlier_fields_ok(s, prefix, f)
    &&& f == "meta/applied"@ ==> value == v->0 && v->0 != bool_text(true) && v->0 != bool_text(false)
    &&& (f == "meta/tree"@ || f == "meta/head"@) ==> value == v->0 && bytes_of_hex(v->0) is None
    &&& (f == "meta/created_timestamp_ms"@ || f == "meta/updated_timestamp_ms"@) ==> value == v->0
        && decimal_u128(v->0) is None
    &&& f == "meta/ownership"@ ==> exists|k: int| 0 <= k < text_lines(v->0).len() && value == text_lines(
        v->0)[k] && (#[trigger] parse_line_spec(text_lines(v->0)[k])) is None && forall|j: int| 0 <= j < k
        ==> (#[trigger] parse_line_spec(text_lines(v->0)[j])) is Some
    &&& (f == "meta/applied"@ || f == "meta/tree"@ || f == "meta/head"@ || f == "meta/created_timestamp_ms"@
        || f == "meta/updated_timestamp_ms"@ || f == "meta/ownership"@)
}

/// `e` truly describes the first fault of the record under `prefix`, in
/// reading order, naming the field by its path within the record.
pub open spec fn describes_fault(s: Store, prefix: Seq<char>, e: Error) -> bool {
    match e {
        Error::NotFound => false,
        Error::MissingField { path } => missing_fault(s, prefix, path@),
        Error::Parse { path, value } => parse_fault(s, prefix, path@, value@),
    }
}

/// `e` truly describes the first fault of the record under `root`, naming
/// the field by its full path in the store.
pub open spec fn describes_stored_fault(s: Store, root: Seq<char>, e: Error) -> bool {
    match e {
        Error::NotFound => false,
        Error::MissingField { path } => exists|f: Seq<char>| path@ == #[trigger] scoped(root, f) && missing_fault(s, root, f),
        Error::Parse { path, value } => exists|f: Seq<char>| path@ == #[trigger] scoped(root, f) && parse_fault(
            s, root, f, value@),
    }
}

fn missing(path: &str) -> (e: Error)
    ensures
        e matches Error::MissingField { path: p } && p@ == path@,
{
    Error::MissingField { path: String::from_str(path) }
}

/// Reads a text field; a missing one is reported by its path.
fn text_field(r: &SubReader, path: &str) -> (res: Result<String, Error>)
    ensures
        match r.value_at(path@) {
            Some(v) => res is Ok && res->Ok_0@ == v,
            None => res matches Err(Error::MissingField { path: p }) && p@ == path@,
        },
{
    match r.read_string(path) {
        Ok(v) => Ok(v),
        Err(_) => Err(missing(path)),
    }
}

/// Reads an object id field.
fn oid_field(r: &SubReader, path: &str) -> (res: Result<Oid, Error>)
    ensures
        match r.value_at(path@) {
            Some(v) => match bytes_of_hex(v) {
                Some(b) => res is Ok && res->Ok_0.bytes@ == b,
                None => res matches Err(Error::Parse { path: p, value: x }) && p@ == path@ && x@ == v,
            },
            None => res matches Err(Error::MissingField { path: p }) && p@ == path@,
        },
{
    let v = text_field(r, path)?;
    match Oid::from_hex(v.as_str()) {
        Some(o) => Ok(o),
        None => Err(Error::Parse { path: String::from_str(path), value: v }),
    }
}

/// Reads a timestamp field.
fn u128_field(r: &SubReader, path: &str) -> (res: Result<u128, Error>)
    ensures
        match r.value_at(path@) {
            Some(v) => match decimal_u128(v) {
                Some(n) => res == Ok::<u128, Error>(n),
                None => res matches Err(Error::Parse { path: p, value: x }) && p@ == path@ && x@ == v,
            },
            None => res matches Err(Error::MissingField { path: p }) && p@ == path@,
        },
{
    match r.read_u128(path) {
        Ok(n) => Ok(n),
        Err(Error::NotFound) => Err(missing(path)),
        Err(e) => Err(e),
    }
}

impl Branch {
    /// Decodes the branch record that `r` is scoped to.
    pub fn from_reader(r: &SubReader) -> (res: Result<Branch, Error>)
        ensures
            res is Ok <==> readable(*r.store, r.prefix@),
            match res {
                Ok(b) => reads_as(*r.store, r.prefix@, b),
                Err(e) => describes_fault(*r.store, r.prefix@, e),
            },
    {
        proof {
            reveal_strlit("id");
            reveal_strlit("meta/name");
            reveal_strlit("meta/applied");
            reveal_strlit("meta/upstream");
            reveal_strlit("meta/tree");
            reveal_strlit("meta/head");
            reveal_strlit("meta/created_timestamp_ms");
            reveal_strlit("meta/updated_timestamp_ms");
            reveal_strlit("meta/ownership");
        }
        let id = text_field(r, "id")?;
        let name = text_field(r, "meta/name")?;
        let applied = match r.read_bool("meta/applied") {
            Ok(b) => b,
            Err(Error::NotFound) => {
                return Err(missing("meta/applied"));
            },
            Err(e) => {
                return Err(e);
            },
        };
        let upstream = text_field(r, "meta/upstream")?;
        let tree = oid_field(r, "meta/tree")?;
        let head = oid_field(r, "meta/head")?;
        let created_timestamp_ms = u128_field(r, "meta/created_timestamp_ms")?;
        let updated_timestamp_ms = u128_field(r, "meta/updated_timestamp_ms")?;
        let text = text_field(r, "meta/ownership")?;
        let ownership = match parse_ownership(text.as_str()) {
            Ok(v) => v,
            Err(line) => {
                return Err(Error::Parse { path: String::from_str("meta/ownership"), value: line });
            },
        };
        Ok(Branch { id, name, applied, upstream, created_timestamp_ms, updated_timestamp_ms, tree, head, ownership })
    }
}

} // verus!

verus! {

/// Reads branch records from a store.
pub struct BranchReader<'a> {
    pub reader: &'a Store,
}

/// `branches/` followed by `id`.
pub fn branch_root_text(id: &str) -> (r: String)
    ensures
        r@ == branch_root(id@),
{
    let mut s = String::from_str("branches/");
    push_str(&mut s, id);
    s
}

/// `root/path`.
fn stored_path(root: &String, path: &String) -> (r: String)
    ensures
        r@ == scoped(root@, path@),
{
    let mut p = root.clone();
    push_str(&mut p, "/");
    push_str(&mut p, path.as_str());
    p
}

impl<'a> BranchReader<'a> {
    pub fn new(reader: &'a Store) -> (r: BranchReader<'a>)
        ensures
            r.reader == reader,
    {
        BranchReader { reader }
    }

    /// The id of the selected branch, or `None` when none is selected.
    pub fn read_selected(&self) -> (r: Result<Option<String>, Error>)
        ensures
            match self.reader.value_at(selected_path()) {
                Some(v) => r matches Ok(Some(x)) && x@ == v,
                None => r matches Ok(None),
            },
    {
        match self.reader.read_string("branches/selected") {
            Ok(selected) => Ok(Some(selected)),
            Err(Error::NotFound) => Ok(None),
            Err(e) => Err(e),
        }
    }

    /// The branch stored under `id`: `NotFound` when nothing is stored there,
    /// otherwise the decoded record or the first fault that stops it, named
    /// by its full path `branches/<id>/<field>`.
    pub fn read(&self, id: &str) -> (r: Result<Branch, Error>)
        ensures
            !self.reader.holds(branch_root(id@)) ==> r == Err::<Branch, Error>(Error::NotFound),
            self.reader.holds(branch_root(id@)) ==> (r is Ok <==> readable(*self.reader, branch_root(id@))),
            match r {
                Ok(b) => reads_as(*self.reader, branch_root(id@), b),
                Err(e) => self.reader.holds(branch_root(id@)) ==> describes_stored_fault(*self.reader, branch_root(id@), e),
            },
    {
        let root = branch_root_text(id);
        if !self.reader.contains_path(root.as_str()) {
            return Err(Error::NotFound);
        }
        let single_reader = self.reader.scope(root.as_str());
        match Branch::from_reader(&single_reader) {
            Ok(b) => Ok(b),
            Err(Error::MissingField { path }) => Err(Error::MissingField { path: stored_path(&root, &path) }),
            Err(Error::Parse { path, value }) => Err(Error::Parse { path: stored_path(&root, &path), value }),
            Err(Error::NotFound) => Err(Error::NotFound),
        }
    }
}

} // verus!
