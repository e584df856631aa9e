//! A path-addressed store of text values, kept as an append-only log in which
//! the latest record for a path wins, with typed reads and scoped views.
use vstd::prelude::*;
use crate::order::{PathOrder, compare_paths};
use crate::text::{push_str, decimal_u128, parse_u128};

verus! {

/// Why a read failed.
#[derive(Debug, PartialEq, Eq)]
pub enum Error {
    /// Nothing is stored at the path that was asked for.
    NotFound,
    /// A field of a record is missing; `path` is the field's path within it.
    MissingField { path: String },
    /// The value of the field at `path` does not decode; `value` is the
    /// offending text (for a list, the offending line).
    Parse { path: String, value: String },
}

impl Error {
    /// A sentence that names what failed.
    pub fn message(&self) -> (r: String)
        ensures
            self is NotFound ==> r@ == "file not found"@,
            self matches Error::MissingField { path } ==> r@ == path@ + ": file not found"@,
            self matches Error::Parse { path, value } ==> r@ == path@ + ": cannot parse "@ + value@,
    {
        match self {
            Error::NotFound => String::from_str("file not found"),
            Error::MissingField { path } => {
                let mut s = path.clone();
                push_str(&mut s, ": file not found");
                s
            },
            Error::Parse { path, value } => {
                let mut s = path.clone();
                push_str(&mut s, ": cannot parse ");
                push_str(&mut s, value.as_str());
                s
            },
        }
    }
}

/// The latest value recorded for `k`; a record of `None` erases it.
pub open spec fn lookup(log: Seq<(String, Option<String>)>, k: Seq<char>) -> Option<Seq<char>>
    decreases log.len(),
{
    if log.len() == 0 {
        None
    } else if log.last().0@ == k {
        match log.last().1 {
            Some(v) => Some(v@),
            None => None,
        }
    } else {
        lookup(log.drop_last(), k)
    }
}

/// Whether two texts are equal.
pub fn same_text(a: &str, b: &str) -> (r: bool)
    ensures
        r == (a@ == b@),
{
    match compare_paths(a, b) {
        PathOrder::Equal => true,
        _ => false,
    }
}

/// `p` followed by `/` begins `k`.
pub open spec fn under(p: Seq<char>, k: Seq<char>) -> bool {
    p.len() < k.len() && k[p.len() as int] == '/' && k.subrange(0, p.len() as int) == p
}

/// The text form of a boolean.
pub open spec fn bool_text(b: bool) -> Seq<char> {
    if b { "true"@ } else { "false"@ }
}

/// A path-addressed store of text values.
pub struct Store {
    log: Vec<(String, Option<String>)>,
}

/// A view of a store whose paths are read below `prefix/`.
pub struct SubReader<'a> {
    pub store: &'a Store,
    pub prefix: String,
}

/// `prefix/path`.
pub open spec fn scoped(prefix: Seq<char>, path: Seq<char>) -> Seq<char> {
    prefix + "/"@ + path
}

impl Store {
    /// The value stored at `k`, if any.
    pub closed spec fn value_at(&self, k: Seq<char>) -> Option<Seq<char>> {
        lookup(self.log@, k)
    }

    /// Something is stored at `p` or below it.
    pub open spec fn holds(&self, p: Seq<char>) -> bool {
        exists|k: Seq<char>| #[trigger] self.value_at(k) is Some && (k == p || under(p, k))
    }

    /// An empty store.
    pub fn new() -> (r: Store)
        ensures
            forall|k: Seq<char>| #[trigger] r.value_at(k) is None,
    {
        Store { log: Vec::new() }
    }

    /// The value stored at `path`.
    pub fn get(&self, path: &str) -> (r: Option<String>)
        ensures
            r is Some <==> self.value_at(path@) is Some,
            r is Some ==> r->0@ == self.value_at(path@)->0,
    {
        let mut i = self.log.len();
        assert(self.log@.subrange(0, i as int) =~= self.log@);
        while i > 0
            invariant
                i <= self.log@.len(),
                lookup(self.log@, path@) == lookup(self.log@.subrange(0, i as int), path@),
            decreases i,
        {
            let ghost pre = self.log@.subrange(0, i as int);
            assert(pre.drop_last() =~= self.log@.subrange(0, i - 1));
            if same_text(self.log[i - 1].0.as_str(), path) {
                return match &self.log[i - 1].1 {
                    Some(v) => Some(v.clone()),
                    None => None,
                };
            }
            i -= 1;
        }
        None
    }

    /// Records `value` at `path`.
    pub fn set(&mut self, path: &str, value: &str)
        ensures
            forall|k: Seq<char>| #[trigger] final(self).value_at(k) == if k == path@ {
                Some(value@)
            } else {
                old(self).value_at(k)
            },
    {
        let ghost before = self.log@;
        self.log.push((String::from_str(path), Some(String::from_str(value))));
        assert(self.log@.drop_last() =~= before);
    }

    /// Erases whatever is stored at `path`.
    pub fn remove(&mut self, path: &str)
        ensures
            forall|k: Seq<char>| #[trigger] final(self).value_at(k) == if k == path@ {
                None
            } else {
                old(self).value_at(k)
            },
    {
        let ghost before = self.log@;
        self.log.push((String::from_str(path), None));
        assert(self.log@.drop_last() =~= before);
    }
}

/// A key that has a value appears in the log.
proof fn lemma_lookup_in_log(log: Seq<(String, Option<String>)>, k: Seq<char>)
    requires
        lookup(log, k) is Some,
    ensures
        exists|i: int| 0 <= i < log.len() && (#[trigger] log[i]).0@ == k,
    decreases log.len(),
{
    if log.last().0@ != k {
        lemma_lookup_in_log(log.drop_last(), k);
        let i = choose|i: int| 0 <= i < log.len() - 1 && (#[trigger] log.drop_last()[i]).0@ == k;
        assert(log[i] == log.drop_last()[i]);
    } else {
        assert(log[log.len() - 1].0@ == k);
    }
}

/// Whether `p/` begins `k`.
fn is_under(p: &str, k: &str) -> (r: bool)
    ensures
        r == under(p@, k@),
{
    let lp = p.unicode_len();
    let lk = k.unicode_len();
    if lp >= lk {
        return false;
    }
    if k.get_char(lp) != '/' {
        return false;
    }
    let mut i: usize = 0;
    while i < lp
        invariant
            lp == p@.len(),
            lk == k@.len(),
            lp < lk,
            i <= lp,
            forall|j: int| 0 <= j < i ==> p@[j] == k@[j],
        decreases lp - i,
    {
        if p.get_char(i) != k.get_char(i) {
            assert(k@.subrange(0, lp as int)[i as int] == k@[i as int]);
            return false;
        }
        i += 1;
    }
    assert(k@.subrange(0, lp as int) =~= p@);
    true
}

impl Store {
    /// Whether anything is stored at `path` or below it.
    pub fn contains_path(&self, path: &str) -> (r: bool)
        ensures
            r == self.holds(path@),
    {
        let n = self.log.len();
        let mut i: usize = 0;
        while i < n
            invariant
                n == self.log@.len(),
                i <= n,
                forall|j: int| 0 <= j < i ==> !(#[trigger] self.value_at(self.log@[j].0@) is Some && (
                    self.log@[j].0@ == path@ || under(path@, self.log@[j].0@))),
            decreases n - i,
        {
            let k = self.log[i].0.as_str();
            if same_text(k, path) || is_under(path, k) {
                if self.get(k).is_some() {
                    return true;
                }
            }
            i += 1;
        }
        proof {
            if self.holds(path@) {
                let k = choose|k: Seq<char>| #[trigger] self.value_at(k) is Some && (k == path@ || under(path@, k));
                lemma_lookup_in_log(self.log@, k);
                let j = choose|j: int| 0 <= j < self.log@.len() && (#[trigger] self.log@[j]).0@ == k;
                assert(self.value_at(self.log@[j].0@) is Some);
            }
        }
        false
    }

    /// The text stored at `path`.
    pub fn read_string(&self, path: &str) -> (r: Result<String, Error>)
        ensures
            match self.value_at(path@) {
                Some(v) => r is Ok && r->Ok_0@ == v,
                None => r == Err::<String, Error>(Error::NotFound),
            },
    {
        match self.get(path) {
            Some(v) => Ok(v),
            None => Err(Error::NotFound),
        }
    }

    /// A view of this store below `prefix/`.
    pub fn scope<'a>(&'a self, prefix: &str) -> (r: SubReader<'a>)
        ensures
            r.store == self,
            r.prefix@ == prefix@,
    {
        SubReader { store: self, prefix: String::from_str(prefix) }
    }
}

impl<'a> SubReader<'a> {
    /// The value stored at `path` below the prefix.
    pub open spec fn value_at(&self, path: Seq<char>) -> Option<Seq<char>> {
        self.store.value_at(scoped(self.prefix@, path))
    }

    fn full_path(&self, path: &str) -> (r: String)
        ensures
            r@ == scoped(self.prefix@, path@),
    {
        let mut s = self.prefix.clone();
        push_str(&mut s, "/");
        push_str(&mut s, path);
        s
    }

    /// Whether anything is stored at `path` below the prefix, or below that.
    pub fn contains_path(&self, path: &str) -> (r: bool)
        ensures
            r == self.store.holds(scoped(self.prefix@, path@)),
    {
        let full = self.full_path(path);
        self.store.contains_path(full.as_str())
    }

    /// The text stored at `path` below the prefix.
    pub fn read_string(&self, path: &str) -> (r: Result<String, Error>)
        ensures
            match self.value_at(path@) {
                Some(v) => r is Ok && r->Ok_0@ == v,
                None => r == Err::<String, Error>(Error::NotFound),
            },
    {
        let full = self.full_path(path);
        self.store.read_string(full.as_str())
    }

    /// The boolean stored at `path` below the prefix, as `true` or `false`.
    pub fn read_bool(&self, path: &str) -> (r: Result<bool, Error>)
        ensures
            match self.value_at(path@) {
                Some(v) => if v == bool_text(true) {
                    r == Ok::<bool, Error>(true)
                } else if v == bool_text(false) {
                    r == Ok::<bool, Error>(false)
                } else {
                    r matches Err(Error::Parse { path: p, value: x }) && p@ == path@ && x@ == v
                },
                None => r == Err::<bool, Error>(Error::NotFound),
            },
    {
        let v = match self.read_string(path) {
            Ok(v) => v,
            Err(e) => {
                return Err(e);
            },
        };
        if same_text(v.as_str(), "true") {
            Ok(true)
        } else if same_text(v.as_str(), "false") {
            Ok(false)
        } else {
            Err(Error::Parse { path: String::from_str(path), value: v })
        }
    }

    /// The decimal `u128` stored at `path` below the prefix.
    pub fn read_u128(&self, path: &str) -> (r: Result<u128, Error>)
        ensures
            match self.value_at(path@) {
                Some(v) => match decimal_u128(v) {
                    Some(n) => r == Ok::<u128, Error>(n),
                    None => r matches Err(Error::Parse { path: p, value: x }) && p@ == path@ && x@ == v,
                },
                None => r == Err::<u128, Error>(Error::NotFound),
            },
    {
        let v = match self.read_string(path) {
            Ok(v) => v,
            Err(e) => {
                return Err(e);
            },
        };
        match parse_u128(v.as_str()) {
            Some(n) => Ok(n),
            None => Err(Error::Parse { path: String::from_str(path), value: v }),
        }
    }
}

} // verus!
