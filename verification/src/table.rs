//! The symbol table: an insertion-ordered mapping from label names to
//! `(value, is_label)` pairs, with last-definition-wins overwrite.
//!
//! `is_label == true` means the value is an address recorded at definition
//! time; `false` means an immediate constant stored verbatim in the data
//! region.

use vstd::prelude::*;
use crate::text::{str_eq, str_eq_vec};

verus! {

/// Ghost picture of one symbol-table entry.
pub struct SymV {
    pub name: Seq<char>,
    pub value: u16,
    pub is_label: bool,
}

/// One symbol-table entry: a name bound to a value, with a mark saying
/// whether the value is an address (`true`) or an immediate constant.
#[derive(Debug)]
pub struct SymEntry {
    pub name: String,
    pub value: u16,
    pub is_label: bool,
}

impl View for SymEntry {
    type V = SymV;

    open spec fn view(&self) -> SymV {
        SymV { name: self.name@, value: self.value, is_label: self.is_label }
    }
}

/// Index of the first entry bound to `name`, or `-1` when there is none.
pub open spec fn sym_idx(t: Seq<SymV>, name: Seq<char>) -> int
    decreases t.len(),
{
    if t.len() == 0 {
        -1
    } else if t[0].name == name {
        0
    } else {
        let r = sym_idx(t.drop_first(), name);
        if r == -1 {
            -1
        } else {
            r + 1
        }
    }
}

/// What [`sym_idx`] returns: the first match, or a witness that none
/// exists.
pub proof fn lemma_sym_idx(t: Seq<SymV>, name: Seq<char>)
    ensures
        sym_idx(t, name) == -1 || 0 <= sym_idx(t, name) < t.len(),
        sym_idx(t, name) == -1 ==> forall|j: int| 0 <= j < t.len() ==> (#[trigger] t[j]).name != name,
        sym_idx(t, name) >= 0 ==> t[sym_idx(t, name)].name == name,
        forall|j: int| 0 <= j < sym_idx(t, name) ==> (#[trigger] t[j]).name != name,
    decreases t.len(),
{
    if t.len() == 0 {
    } else if t[0].name == name {
    } else {
        lemma_sym_idx(t.drop_first(), name);
        let r = sym_idx(t.drop_first(), name);
        if r == -1 {
            assert forall|j: int| 0 <= j < t.len() implies (#[trigger] t[j]).name != name by {
                if j > 0 {
                    assert(t.drop_first()[j - 1] == t[j]);
                }
            }
        } else {
            assert(t.drop_first()[r] == t[r + 1]);
            assert forall|j: int| 0 <= j < sym_idx(t, name) implies (#[trigger] t[j]).name != name by {
                if j > 0 {
                    assert(t.drop_first()[j - 1] == t[j]);
                }
            }
        }
    }
}

/// The binding `name` resolves to, if any: value and address mark of the
/// first entry with that name.
pub open spec fn spec_lookup(t: Seq<SymV>, name: Seq<char>) -> Option<(u16, bool)> {
    let i = sym_idx(t, name);
    if i >= 0 {
        Some((t[i].value, t[i].is_label))
    } else {
        None
    }
}

/// Insert-or-replace: a fresh name is appended, a known one has its binding
/// replaced in place (the position in the order is kept).
pub open spec fn spec_insert(t: Seq<SymV>, name: Seq<char>, value: u16, is_label: bool) -> Seq<
    SymV,
> {
    let e = SymV { name, value, is_label };
    let i = sym_idx(t, name);
    if i >= 0 {
        t.update(i, e)
    } else {
        t.push(e)
    }
}

/// Every name appears at most once.
pub open spec fn table_wf(t: Seq<SymV>) -> bool {
    forall|i: int, j: int| 0 <= i < j < t.len() ==> (#[trigger] t[i]).name != (#[trigger] t[j]).name
}

/// [`spec_insert`] keeps the table free of duplicate names.
pub proof fn lemma_insert_wf(t: Seq<SymV>, name: Seq<char>, value: u16, is_label: bool)
    requires
        table_wf(t),
    ensures
        table_wf(spec_insert(t, name, value, is_label)),
{
    lemma_sym_idx(t, name);
    let r = spec_insert(t, name, value, is_label);
    let i = sym_idx(t, name);
    if i >= 0 {
        assert forall|p: int, q: int| 0 <= p < q < r.len() implies (#[trigger] r[p]).name != (
        #[trigger] r[q]).name by {
            if p != i && q != i {
                assert(r[p] == t[p] && r[q] == t[q]);
            } else if p == i {
                assert(r[q] == t[q] && t[i].name == name);
            } else {
                assert(r[p] == t[p] && t[i].name == name);
            }
        }
    } else {
        assert forall|p: int, q: int| 0 <= p < q < r.len() implies (#[trigger] r[p]).name != (
        #[trigger] r[q]).name by {
            if q < t.len() {
                assert(r[p] == t[p] && r[q] == t[q]);
            } else {
                assert(r[p] == t[p]);
            }
        }
    }
}

/// The symbol table an assembly run builds and consumes: entries in
/// insertion order, names unique.
#[derive(Debug)]
pub struct SymTable {
    entries: Vec<SymEntry>,
}

impl View for SymTable {
    type V = Seq<SymV>;

    closed spec fn view(&self) -> Seq<SymV> {
        self.entries@.map_values(|e: SymEntry| e@)
    }
}

impl SymTable {
    /// An empty table.
    pub fn new() -> (r: SymTable)
        ensures
            r@ == Seq::<SymV>::empty(),
    {
        let r = SymTable { entries: Vec::new() };
        proof {
            assert(r@ =~= Seq::<SymV>::empty());
        }
        r
    }

    /// Number of entries.
    pub fn len(&self) -> (r: usize)
        ensures
            r == self@.len(),
    {
        self.entries.len()
    }

    /// The `(value, is_label)` pair at position `i` of the order.
    pub fn value_at(&self, i: usize) -> (r: (u16, bool))
        requires
            i < self@.len(),
        ensures
            r.0 == self@[i as int].value,
            r.1 == self@[i as int].is_label,
    {
        (self.entries[i].value, self.entries[i].is_label)
    }

    /// Index of the first entry bound to `name`, given as a character
    /// vector.
    pub fn find_chars(&self, name: &Vec<char>) -> (r: Option<usize>)
        ensures
            match r {
                Some(i) => i == sym_idx(self@, name@),
                None => sym_idx(self@, name@) == -1,
            },
    {
        let n = self.entries.len();
        let mut i: usize = 0;
        while i < n
            invariant
                i <= n,
                n == self@.len(),
                forall|j: int| 0 <= j < i ==> (#[trigger] self@[j]).name != name@,
            decreases n - i,
        {
            if str_eq_vec(self.entries[i].name.as_str(), name) {
                proof {
                    lemma_sym_idx(self@, name@);
                    let k = sym_idx(self@, name@);
                    assert(self@[i as int].name == name@);
                    if 0 <= k < i as int {
                        assert(self@[k].name == name@);
                    }
                    if k > i as int || k == -1 {
                        assert(self@[i as int].name != name@);
                    }
                }
                return Some(i);
            }
            i = i + 1;
        }
        proof {
            lemma_sym_idx(self@, name@);
            let k = sym_idx(self@, name@);
            if k >= 0 {
                assert(self@[k].name == name@);
            }
        }
        None
    }

    /// Inserts `name -> (value, is_label)`: a fresh name is appended, a
    /// known one is overwritten in place (last definition wins).
    pub fn insert(&mut self, name: String, value: u16, is_label: bool)
        ensures
            final(self)@ == spec_insert(old(self)@, name@, value, is_label),
    {
        let ghost told = self@;
        let n = self.entries.len();
        let mut i: usize = 0;
        while i < n
            invariant
                i <= n,
                n == self@.len(),
                self@ == told,
                told == old(self)@,
                forall|j: int| 0 <= j < i ==> (#[trigger] self@[j]).name != name@,
        decreases n - i,
        {
            if str_eq(self.entries[i].name.as_str(), name.as_str()) {
                proof {
                    lemma_sym_idx(told, name@);
                    let k = sym_idx(told, name@);
                    assert(told[i as int].name == name@);
                    if 0 <= k < i as int {
                        assert(told[k].name == name@);
                    }
                    if k > i as int || k == -1 {
                        assert(told[i as int].name != name@);
                    }
                }
                proof {
                    assert(sym_idx(told, name@) == i as int);
                }
                self.entries[i] = SymEntry { name, value, is_label };
                proof {
                    assert(self@ =~= told.update(
                        i as int,
                        SymV { name: name@, value, is_label },
                    ));
                }
                return ;
            }
            i = i + 1;
        }
        proof {
            lemma_sym_idx(told, name@);
            let k = sym_idx(told, name@);
            if k >= 0 {
                assert(told[k].name == name@);
            }
            assert(sym_idx(told, name@) == -1);
        }
        self.entries.push(SymEntry { name, value, is_label });
        proof {
            assert(self@ =~= told.push(SymV { name: name@, value, is_label }));
        }
    }

    /// The binding of `name`, if the table holds one.
    pub fn get(&self, name: &str) -> (r: Option<(u16, bool)>)
        ensures
            r == spec_lookup(self@, name@),
    {
        let n = self.entries.len();
        let mut i: usize = 0;
        while i < n
            invariant
                i <= n,
                n == self@.len(),
                forall|j: int| 0 <= j < i ==> (#[trigger] self@[j]).name != name@,
            decreases n - i,
        {
            if str_eq(self.entries[i].name.as_str(), name) {
                proof {
                    lemma_sym_idx(self@, name@);
                    let k = sym_idx(self@, name@);
                    assert(self@[i as int].name == name@);
                    if 0 <= k < i as int {
                        assert(self@[k].name == name@);
                    }
                    if k > i as int || k == -1 {
                        assert(self@[i as int].name != name@);
                    }
                }
                return Some((self.entries[i].value, self.entries[i].is_label));
            }
            i = i + 1;
        }
        proof {
            lemma_sym_idx(self@, name@);
            let k = sym_idx(self@, name@);
            if k >= 0 {
                assert(self@[k].name == name@);
            }
        }
        None
    }
}

} // verus!
