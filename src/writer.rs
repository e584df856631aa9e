//! Writing branch records and the selected-branch pointer to a store.
use vstd::prelude::*;
use crate::branch::Branch;
use crate::oid::hex_of;
use crate::ownership_text::{ownership_text, write_ownership};
use crate::reader::{branch_root, branch_root_text, selected_path, field, is_field};
use crate::store::{Store, scoped, bool_text};
use crate::text::{decimal, decimal_string, push_str};

verus! {

/// Writes branch records into a store.
pub struct BranchWriter<'a> {
    pub writer: &'a mut Store,
}

/// Distinct fields of one record live at distinct paths.
pub proof fn lemma_scoped_injective(p: Seq<char>, f1: Seq<char>, f2: Seq<char>)
    requires
        scoped(p, f1) == scoped(p, f2),
    ensures
        f1 == f2,
{
    let n = p.len() + 1;
    assert(scoped(p, f1).subrange(n as int, scoped(p, f1).len() as int) =~= f1) by {
        reveal_strlit("/");
    }
    assert(scoped(p, f2).subrange(n as int, scoped(p, f2).len() as int) =~= f2) by {
        reveal_strlit("/");
    }
}

/// Distinct names below one prefix are distinct paths.
pub proof fn lemma_scoped_distinct(p: Seq<char>)
    ensures
        forall|f: Seq<char>, g: Seq<char>| f != g ==> #[trigger] scoped(p, f) != #[trigger] scoped(p, g),
{
    assert forall|f: Seq<char>, g: Seq<char>| f != g implies #[trigger] scoped(p, f) != #[trigger] scoped(p, g) by {
        if scoped(p, f) == scoped(p, g) {
            lemma_scoped_injective(p, f, g);
        }
    }
}

/// What writing `b` leaves in the field `f` of its record.
pub open spec fn stored_field(b: Branch, f: Seq<char>) -> Seq<char> {
    if f == "id"@ {
        b.id@
    } else if f == "meta/name"@ {
        b.name@
    } else if f == "meta/applied"@ {
        bool_text(b.applied)
    } else if f == "meta/upstream"@ {
        b.upstream@
    } else if f == "meta/tree"@ {
        hex_of(b.tree.bytes@)
    } else if f == "meta/head"@ {
        hex_of(b.head.bytes@)
    } else if f == "meta/created_timestamp_ms"@ {
        decimal(b.created_timestamp_ms as nat)
    } else if f == "meta/updated_timestamp_ms"@ {
        decimal(b.updated_timestamp_ms as nat)
    } else {
        ownership_text(b.ownership@)
    }
}

/// `k` is the path of a field of the record under `root`.
pub open spec fn is_field_path(root: Seq<char>, k: Seq<char>) -> bool {
    exists|f: Seq<char>| is_field(f) && k == #[trigger] scoped(root, f)
}

impl<'a> BranchWriter<'a> {
    pub fn new(writer: &'a mut Store) -> (r: BranchWriter<'a>)
        ensures
            *r.writer == *old(writer),
            *final(writer) == *final(r.writer),
    {
        BranchWriter { writer }
    }

    /// Writes every field of `b` under `branches/<id>`; nothing else changes.
    pub fn write(&mut self, b: &Branch)
        ensures
            *final(final(self).writer) == *final(old(self).writer),
            forall|f: Seq<char>| is_field(f) ==> #[trigger] field(*final(self).writer, branch_root(b.id@), f)
                == Some(stored_field(*b, f)),
            forall|k: Seq<char>| !is_field_path(branch_root(b.id@), k) ==> #[trigger] final(self).writer.value_at(k)
                == old(self).writer.value_at(k),
    {
        let root = branch_root_text(b.id.as_str());
        let ghost r = root@;
        let applied = if b.applied { "true" } else { "false" };
        let tree = b.tree.to_hex();
        let head = b.head.to_hex();
        let created = decimal_string(b.created_timestamp_ms);
        let updated = decimal_string(b.updated_timestamp_ms);
        let ownership = write_ownership(&b.ownership);
        proof {
            reveal_strlit("id");
            reveal_strlit("meta/name");
            reveal_strlit("meta/applied");
            reveal_strlit("meta/upstream");
            reveal_strlit("meta/tree");
            reveal_strlit("meta/head");
            reveal_strlit("meta/created_timestamp_ms");
            reveal_strlit("meta/updated_timestamp_ms");
            reveal_strlit("meta/ownership");
            assert("meta/name"@[5] != "meta/tree"@[5]);
            assert("meta/name"@[5] != "meta/head"@[5]);
            assert("meta/tree"@[5] != "meta/head"@[5]);
            assert("meta/created_timestamp_ms"@[5] != "meta/updated_timestamp_ms"@[5]);
            lemma_scoped_distinct(r);
        }
        self.put_field(&root, "id", b.id.as_str());
        self.put_field(&root, "meta/name", b.name.as_str());
        self.put_field(&root, "meta/applied", applied);
        self.put_field(&root, "meta/upstream", b.upstream.as_str());
        self.put_field(&root, "meta/tree", tree.as_str());
        self.put_field(&root, "meta/head", head.as_str());
        self.put_field(&root, "meta/created_timestamp_ms", created.as_str());
        self.put_field(&root, "meta/updated_timestamp_ms", updated.as_str());
        self.put_field(&root, "meta/ownership", ownership.as_str());
        proof {
            reveal_strlit("true");
            reveal_strlit("false");
            lemma_scoped_distinct(r);
            assert(field(*self.writer, r, "id"@) == Some(stored_field(*b, "id"@)));
            assert(field(*self.writer, r, "meta/name"@) == Some(stored_field(*b, "meta/name"@)));
            assert(field(*self.writer, r, "meta/applied"@) == Some(stored_field(*b, "meta/applied"@)));
            assert(field(*self.writer, r, "meta/upstream"@) == Some(stored_field(*b, "meta/upstream"@)));
            assert(field(*self.writer, r, "meta/tree"@) == Some(stored_field(*b, "meta/tree"@)));
            assert(field(*self.writer, r, "meta/head"@) == Some(stored_field(*b, "meta/head"@)));
            assert(field(*self.writer, r, "meta/created_timestamp_ms"@) == Some(
                stored_field(*b, "meta/created_timestamp_ms"@)));
            assert(field(*self.writer, r, "meta/updated_timestamp_ms"@) == Some(
                stored_field(*b, "meta/updated_timestamp_ms"@)));
            assert(field(*self.writer, r, "meta/ownership"@) == Some(stored_field(*b, "meta/ownership"@)));
            assert forall|k: Seq<char>| !is_field_path(r, k) implies #[trigger] self.writer.value_at(k)
                == old(self).writer.value_at(k) by {
                assert(k != scoped(r, "id"@));
                assert(k != scoped(r, "meta/name"@));
                assert(k != scoped(r, "meta/applied"@));
                assert(k != scoped(r, "meta/upstream"@));
                assert(k != scoped(r, "meta/tree"@));
                assert(k != scoped(r, "meta/head"@));
                assert(k != scoped(r, "meta/created_timestamp_ms"@));
                assert(k != scoped(r, "meta/updated_timestamp_ms"@));
                assert(k != scoped(r, "meta/ownership"@));
            }
        }
    }

    fn put_field(&mut self, root: &String, f: &str, value: &str)
        ensures
            *final(final(self).writer) == *final(old(self).writer),
            forall|k: Seq<char>| #[trigger] final(self).writer.value_at(k) == if k == scoped(root@, f@) {
                Some(value@)
            } else {
                old(self).writer.value_at(k)
            },
    {
        let mut path = root.clone();
        push_str(&mut path, "/");
        push_str(&mut path, f);
        self.writer.set(path.as_str(), value);
    }

    /// Points the selected-branch pointer at `id`, or clears it for `None`.
    pub fn write_selected(&mut self, id: &Option<String>)
        ensures
            *final(final(self).writer) == *final(old(self).writer),
            forall|k: Seq<char>| #[trigger] final(self).writer.value_at(k) == if k == selected_path() {
                match id {
                    Some(x) => Some(x@),
                    None => None,
                }
            } else {
                old(self).writer.value_at(k)
            },
    {
        match id {
            Some(x) => self.writer.set("branches/selected", x.as_str()),
            None => self.writer.remove("branches/selected"),
        }
    }
}

} // verus!
