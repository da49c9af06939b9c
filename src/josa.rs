use crate::constant::{same_value, values_equal, Constant};
use crate::shared::{char_from_u32, push_char, share};
use indexmap::IndexSet;
use std::rc::Rc;
use vstd::prelude::*;
use vstd::string::StrSliceExecFns;

verus! {

#[verifier::external_type_specification]
#[verifier::external_body]
#[verifier::reject_recursive_types(T)]
#[verifier::reject_recursive_types(S)]
pub struct ExIndexSet<T, S>(IndexSet<T, S>);

/// The labels an `IndexSet` holds, in insertion order.
pub uninterp spec fn label_list(s: IndexSet<String>) -> Seq<Seq<char>>;

/// Relies on `IndexSet::new`: a new set holds nothing.
#[verifier::external_body]
fn new_label_set() -> (r: IndexSet<String>)
    ensures
        label_list(r) == Seq::<Seq<char>>::empty(),
{
    IndexSet::new()
}

/// Relies on `IndexSet::insert`: a label not yet held is appended and `true`
/// returned; a label already held leaves the set as it was and `false` is
/// returned.
#[verifier::external_body]
fn insert_label(s: &mut IndexSet<String>, label: String) -> (added: bool)
    ensures
        added == !label_list(*old(s)).contains(label@),
        label_list(*final(s)) == (if added {
            label_list(*old(s)).push(label@)
        } else {
            label_list(*old(s))
        }),
{
    s.insert(label)
}

/// Relies on `IndexSet::get_index_of`: the position of a held label, or
/// `None` when the label is not held.
#[verifier::external_body]
fn label_index(s: &IndexSet<String>, label: &str) -> (r: Option<usize>)
    ensures
        match r {
            Some(i) => i < label_list(*s).len() && label_list(*s)[i as int] == label@,
            None => !label_list(*s).contains(label@),
        },
{
    s.get_index_of(label)
}

/// Relies on `IndexSet::get_index`: the label at a position, or `None`
/// past the end.
#[verifier::external_body]
fn label_at(s: &IndexSet<String>, i: usize) -> (r: Option<&String>)
    ensures
        match r {
            Some(l) => i < label_list(*s).len() && l@ == label_list(*s)[i as int],
            None => i >= label_list(*s).len(),
        },
{
    s.get_index(i)
}

/// Equality of slots: both empty, or both filled with equal values.
pub open spec fn same_slot(a: Option<Constant>, b: Option<Constant>) -> bool
    decreases a, 1int,
{
    match (a, b) {
        (Some(x), Some(y)) => same_value(x, y),
        (None, None) => true,
        _ => false,
    }
}

/// Equality of maps: the same labels in the same order, and equal slots.
/// Order counts because it decides the order in which a function receives
/// its arguments: two maps with the same labels in another order describe
/// different functions.
pub closed spec fn same_map(a: JosaMap, b: JosaMap) -> bool
    decreases a, 1int,
{
    &&& label_list(*a.labels) == label_list(*b.labels)
    &&& a.slots@.len() == b.slots@.len()
    &&& forall|i: int| 0 <= i < a.slots@.len() ==> same_slot(#[trigger] a.slots@[i], b.slots@[i])
}

/// The wildcard label, which binds the first slot still unfilled.
pub open spec fn wildcard() -> Seq<char> {
    seq!['_']
}

/// The label that the loader gives to slot `i` of a function read from a
/// program file, whose format records only the arity: one character of
/// Unicode's private use area, apart from the labels of source text.
pub open spec fn positional_label(i: int) -> Seq<char> {
    seq![(0xE000 + i) as u32 as char]
}

/// The labels of `s` with repeats left out, each at its first occurrence.
pub open spec fn distinct_in_order(s: Seq<Seq<char>>) -> Seq<Seq<char>>
    decreases s.len(),
{
    if s.len() == 0 {
        s
    } else {
        let d = distinct_in_order(s.drop_last());
        if d.contains(s.last()) {
            d
        } else {
            d.push(s.last())
        }
    }
}

/// The number of slots not yet filled.
pub open spec fn unfilled_count(s: Seq<Option<Constant>>) -> nat
    decreases s.len(),
{
    if s.len() == 0 {
        0
    } else {
        unfilled_count(s.drop_last()) + if s.last() is None {
            1nat
        } else {
            0nat
        }
    }
}

/// The position of the first slot not yet filled, if any.
pub open spec fn first_unfilled(s: Seq<Option<Constant>>) -> Option<int> {
    if exists|i: int| 0 <= i < s.len() && s[i] is None && forall|j: int| 0 <= j < i ==> s[j] is Some {
        Some(choose|i: int| 0 <= i < s.len() && s[i] is None && forall|j: int| 0 <= j < i ==> s[j] is Some)
    } else {
        None
    }
}

/// Why a label given at a call could not be bound.
#[derive(Debug, Clone, Copy, PartialEq, Eq)]
pub enum JosaFault {
    /// The function has no slot with this label.
    Unbound,
    /// The slot with this label is already filled.
    AlreadyApplied,
}

/// The slots after binding one label to a value, or why it cannot be bound.
pub open spec fn bind_one(
    labels: Seq<Seq<char>>,
    slots: Seq<Option<Constant>>,
    j: Seq<char>,
    v: Constant,
) -> Result<Seq<Option<Constant>>, (JosaFault, Seq<char>)> {
    if j == wildcard() {
        match first_unfilled(slots) {
            Some(i) => Ok(slots.update(i, Some(v))),
            None => Ok(slots),
        }
    } else if !labels.contains(j) {
        Err((JosaFault::Unbound, j))
    } else if slots[labels.index_of(j)] is Some {
        Err((JosaFault::AlreadyApplied, j))
    } else {
        Ok(slots.update(labels.index_of(j), Some(v)))
    }
}

/// The slots after binding each given label, in order, to the argument at
/// the same position; or the first label that cannot be bound.
pub open spec fn bind_labels(
    labels: Seq<Seq<char>>,
    slots: Seq<Option<Constant>>,
    given: Seq<Seq<char>>,
    args: Seq<Constant>,
) -> Result<Seq<Option<Constant>>, (JosaFault, Seq<char>)>
    decreases given.len(),
{
    if given.len() == 0 || args.len() == 0 {
        Ok(slots)
    } else {
        match bind_one(labels, slots, given[0], args[0]) {
            Ok(next) => bind_labels(labels, next, given.drop_first(), args.drop_first()),
            Err(e) => Err(e),
        }
    }
}

/// The argument slots of a function value: a label for each parameter, in
/// declaration order, and the value bound to it so far.
///
/// The labels are kept in an insertion-ordered set; the slots beside them
/// in the same order. Both are shared between copies of the value. An
/// insertion-ordered map from label to slot cannot hold the slots itself:
/// its values would be this library's values, a type that would then recur
/// through an outside type, which Verus refuses.
#[derive(Debug)]
pub struct JosaMap {
    labels: Rc<IndexSet<String>>,
    slots: Rc<Vec<Option<Constant>>>,
}

impl Clone for JosaMap {
    fn clone(&self) -> (r: Self)
        ensures
            r == *self,
    {
        proof {
            use_type_invariant(self);
        }
        JosaMap { labels: share(&self.labels), slots: share(&self.slots) }
    }
}

fn copy_slot(s: &Option<Constant>) -> (r: Option<Constant>)
    ensures
        r == *s,
{
    match s {
        Some(c) => Some(c.clone()),
        None => None,
    }
}

impl JosaMap {
    /// The labels, in declaration order.
    pub closed spec fn labels(self) -> Seq<Seq<char>> {
        label_list(*self.labels)
    }

    /// The slots, in the order of the labels.
    pub closed spec fn slots(self) -> Seq<Option<Constant>> {
        self.slots@
    }

    #[verifier::type_invariant]
    closed spec fn inv(self) -> bool {
        self.wf()
    }


    /// One slot per label, and no label twice.
    pub open spec fn wf(self) -> bool {
        &&& self.labels().len() == self.slots().len()
        &&& self.labels().no_duplicates()
    }

    /// The number of slots still to be filled.
    pub open spec fn residual(self) -> nat {
        unfilled_count(self.slots())
    }

    /// A map with the given labels, repeats left out, and every slot unfilled.
    pub fn new(josa_list: &Vec<String>) -> (r: JosaMap)
        ensures
            r.wf(),
            r.labels() == distinct_in_order(josa_list@.map_values(|s: String| s@)),
            forall|i: int| 0 <= i < r.slots().len() ==> r.slots()[i] is None,
    {
        let ghost names = josa_list@.map_values(|s: String| s@);
        let mut set = new_label_set();
        let mut slots: Vec<Option<Constant>> = Vec::new();
        let mut k: usize = 0;
        while k < josa_list.len()
            invariant
                k <= josa_list.len(),
                names == josa_list@.map_values(|s: String| s@),
                label_list(set) == distinct_in_order(names.subrange(0, k as int)),
                label_list(set).no_duplicates(),
                slots@.len() == label_list(set).len(),
                forall|i: int| 0 <= i < slots@.len() ==> slots@[i] is None,
            decreases josa_list.len() - k,
        {
            proof {
                assert(names.subrange(0, k + 1).drop_last() == names.subrange(0, k as int));
            }
            let added = insert_label(&mut set, josa_list[k].clone());
            if added {
                slots.push(None);
            }
            k = k + 1;
        }
        proof {
            assert(names.subrange(0, k as int) == names);
        }
        JosaMap { labels: Rc::new(set), slots: Rc::new(slots) }
    }

    /// A map of `arity` unfilled slots under positional labels.
    pub fn positional(arity: u8) -> (r: JosaMap)
        ensures
            r.wf(),
            r.labels().len() == arity,
            forall|i: int| 0 <= i < arity ==> r.labels()[i] == positional_label(i),
            forall|i: int| 0 <= i < r.slots().len() ==> r.slots()[i] is None,
    {
        let mut set = new_label_set();
        let mut slots: Vec<Option<Constant>> = Vec::new();
        let mut k: u32 = 0;
        while k < arity as u32
            invariant
                k <= arity,
                label_list(set).len() == k,
                forall|i: int| 0 <= i < k ==> label_list(set)[i] == positional_label(i),
                forall|i: int|
                    0 <= i < k ==> label_list(set)[i].len() == 1 && label_list(set)[i][0] as u32 == 0xE000 + i,
                label_list(set).no_duplicates(),
                slots@.len() == k,
                forall|i: int| 0 <= i < slots@.len() ==> slots@[i] is None,
            decreases arity - k,
        {
            let c = char_from_u32(0xE000 + k);
            match c {
                Some(c) => {
                    let mut label = String::new();
                    push_char(&mut label, c);
                    proof {
                        assert(label@ == seq![c]);
                        vstd::utf8::char_u32_cast(c, (0xE000 + k) as u32);
                        assert(positional_label(k as int) == label@);
                        assert forall|i: int| 0 <= i < k implies label_list(set)[i] != label@ by {
                            let l = label_list(set)[i];
                            assert(l[0] as u32 == 0xE000 + i);
                        }
                    }
                    let added = insert_label(&mut set, label);
                    slots.push(None);
                }
                None => {
                    proof {
                        assert(vstd::utf8::is_scalar((0xE000 + k) as u32));
                    }
                }
            }
            k = k + 1;
        }
        JosaMap { labels: Rc::new(set), slots: Rc::new(slots) }
    }

    /// Whether two maps have the same labels in the same order and equal slots.
    pub fn same_as(&self, other: &JosaMap) -> (r: bool)
        ensures
            r == same_map(*self, *other),
        decreases *self, 0int,
    {
        proof {
            use_type_invariant(self);
            use_type_invariant(other);
        }
        let n = self.slots.len();
        if n != other.slots.len() {
            return false;
        }
        let mut i: usize = 0;
        while i < n
            invariant
                self.wf(),
                other.wf(),
                n == self.slots@.len(),
                n == other.slots@.len(),
                i <= n,
                forall|k: int| 0 <= k < i ==> self.labels()[k] == other.labels()[k],
                forall|k: int| 0 <= k < i ==> same_slot(#[trigger] self.slots@[k], other.slots@[k]),
            decreases n - i,
        {
            match (label_at(&self.labels, i), label_at(&other.labels, i)) {
                (Some(x), Some(y)) => {
                    if !x.eq(y) {
                        return false;
                    }
                },
                _ => {
                    return false;
                },
            }
            let same = match (&self.slots[i], &other.slots[i]) {
                (Some(x), Some(y)) => {
                    proof {
                        assert(decreases_to!(*self => self.slots@[i as int]));
                    }
                    values_equal(x, y)
                },
                (None, None) => true,
                _ => false,
            };
            if !same {
                return false;
            }
            i = i + 1;
        }
        assert(self.labels() =~= other.labels());
        true
    }

    /// The number of parameters.
    pub fn len(&self) -> (r: usize)
        ensures
            r == self.slots().len(),
    {
        self.slots.len()
    }

    /// The number of slots still to be filled.
    pub fn residual_arity(&self) -> (r: usize)
        ensures
            r == self.residual(),
    {
        let mut n: usize = 0;
        let mut i: usize = 0;
        while i < self.slots.len()
            invariant
                i <= self.slots().len(),
                n == unfilled_count(self.slots().subrange(0, i as int)),
                n <= i,
            decreases self.slots().len() - i,
        {
            proof {
                assert(self.slots().subrange(0, i + 1).drop_last() == self.slots().subrange(0, i as int));
            }
            if self.slots[i].is_none() {
                n = n + 1;
            }
            i = i + 1;
        }
        proof {
            assert(self.slots().subrange(0, i as int) == self.slots());
        }
        n
    }

    /// Binds the given labels, in order, to the values on top of `stack`:
    /// the first label to the top value, the next to the value below it,
    /// and so on. The wildcard label binds the first slot still unfilled.
    pub fn bind(&self, given: &Vec<String>, stack: &Vec<Constant>) -> (r: Result<JosaMap, (JosaFault, String)>)
        requires
            given.len() <= stack.len(),
        ensures
            match bind_labels(self.labels(), self.slots(), labels_of(given@), top_args(stack@, given.len() as int)) {
                Ok(s) => r matches Ok(m) && m.labels() == self.labels() && m.slots() == s && m.wf(),
                Err((f, l)) => r matches Err((f2, l2)) && f2 == f && l2@ == l,
            },
    {
        proof {
            use_type_invariant(self);
        }
        let ghost labels = self.labels();
        let ghost names = labels_of(given@);
        let ghost args = top_args(stack@, given.len() as int);
        let mut cur = self.copy_slots();
        let n = stack.len();
        let mut k: usize = 0;
        proof {
            assert(names.subrange(0, names.len() as int) == names);
            assert(args.subrange(0, args.len() as int) == args);
        }
        while k < given.len()
            invariant
                self.wf(),
                given.len() <= stack.len(),
                n == stack.len(),
                k <= given.len(),
                labels == self.labels(),
                names == labels_of(given@),
                args == top_args(stack@, given.len() as int),
                cur@.len() == labels.len(),
                bind_labels(labels, self.slots(), names, args) == bind_labels(
                    labels,
                    cur@,
                    names.subrange(k as int, names.len() as int),
                    args.subrange(k as int, args.len() as int),
                ),
            decreases given.len() - k,
        {
            let ghost rest_names = names.subrange(k as int, names.len() as int);
            let ghost rest_args = args.subrange(k as int, args.len() as int);
            proof {
                assert(rest_names[0] == given@[k as int]@);
                assert(rest_args[0] == stack@[n - 1 - k]);
                assert(rest_names.drop_first() == names.subrange(k + 1, names.len() as int));
                assert(rest_args.drop_first() == args.subrange(k + 1, args.len() as int));
            }
            let j = given[k].as_str();
            let value = stack[n - 1 - k].clone();
            let ghost before = cur@;
            let ghost step = bind_one(labels, before, j@, value);
            proof {
                assert(bind_labels(labels, before, rest_names, rest_args) == match step {
                    Ok(next) => bind_labels(labels, next, rest_names.drop_first(), rest_args.drop_first()),
                    Err(e) => Err(e),
                });
            }
            if is_wildcard(j) {
                match first_unfilled_in(&cur) {
                    Some(i) => {
                        cur.set(i, Some(value));
                    },
                    None => {},
                }
                assert(step == Ok::<Seq<Option<Constant>>, (JosaFault, Seq<char>)>(cur@));
            } else {
                match label_index(&self.labels, j) {
                    None => {
                        return Err((JosaFault::Unbound, given[k].clone()));
                    },
                    Some(i) => {
                        proof {
                            assert(labels.contains(j@));
                            let p = labels.index_of(j@);
                            assert(labels[p] == j@);
                            assert(p == i);
                        }
                        if cur[i].is_some() {
                            return Err((JosaFault::AlreadyApplied, given[k].clone()));
                        }
                        cur.set(i, Some(value));
                        assert(step == Ok::<Seq<Option<Constant>>, (JosaFault, Seq<char>)>(cur@));
                    },
                }
            }
            k = k + 1;
        }
        proof {
            assert(names.subrange(k as int, names.len() as int).len() == 0);
        }
        Ok(JosaMap { labels: share(&self.labels), slots: Rc::new(cur) })
    }

    /// A copy of the slots.
    fn copy_slots(&self) -> (r: Vec<Option<Constant>>)
        ensures
            r@ == self.slots(),
    {
        let mut r: Vec<Option<Constant>> = Vec::new();
        let mut i: usize = 0;
        while i < self.slots.len()
            invariant
                i <= self.slots().len(),
                r@ == self.slots().subrange(0, i as int),
            decreases self.slots().len() - i,
        {
            r.push(copy_slot(&self.slots[i]));
            i = i + 1;
        }
        r
    }

    /// The bound values in slot order, once every slot is filled.
    pub fn arguments(&self) -> (r: Vec<Constant>)
        requires
            forall|i: int| 0 <= i < self.slots().len() ==> self.slots()[i] is Some,
        ensures
            r@.len() == self.slots().len(),
            forall|i: int| 0 <= i < r@.len() ==> self.slots()[i] == Some(r@[i]),
    {
        let mut r: Vec<Constant> = Vec::new();
        let mut i: usize = 0;
        while i < self.slots.len()
            invariant
                i <= self.slots().len(),
                forall|i: int| 0 <= i < self.slots().len() ==> self.slots()[i] is Some,
                r@.len() == i,
                forall|m: int| 0 <= m < i ==> self.slots()[m] == Some(r@[m]),
            decreases self.slots().len() - i,
        {
            match &self.slots[i] {
                Some(c) => r.push(c.clone()),
                None => {},
            }
            i = i + 1;
        }
        r
    }
}

/// The views of a list of strings.
pub open spec fn labels_of(given: Seq<String>) -> Seq<Seq<char>> {
    given.map_values(|s: String| s@)
}

/// The `n` values on top of a stack, the top one first.
pub open spec fn top_args(stack: Seq<Constant>, n: int) -> Seq<Constant> {
    Seq::new(n as nat, |k: int| stack[stack.len() - 1 - k])
}

fn is_wildcard(j: &str) -> (r: bool)
    ensures
        r == (j@ == wildcard()),
{
    if j.unicode_len() == 1 {
        let c = j.get_char(0);
        proof {
            if c == '_' {
                assert(j@ == wildcard());
            }
        }
        c == '_'
    } else {
        false
    }
}

/// The position of the first unfilled slot, if any.
pub fn first_unfilled_in(slots: &Vec<Option<Constant>>) -> (r: Option<usize>)
    ensures
        r == (match first_unfilled(slots@) {
            Some(i) => Some(i as usize),
            None => None::<usize>,
        }),
{
    let mut i: usize = 0;
    while i < slots.len()
        invariant
            i <= slots@.len(),
            forall|m: int| 0 <= m < i ==> slots@[m] is Some,
        decreases slots@.len() - i,
    {
        if slots[i].is_none() {
            proof {
                let c = choose|p: int| 0 <= p < slots@.len() && slots@[p] is None && forall|q: int| 0 <= q < p ==> slots@[q] is Some;
                if c < i {
                } else if c > i {
                }
                assert(c == i);
            }
            return Some(i);
        }
        i = i + 1;
    }
    None
}

impl PartialEq for JosaMap {
    fn eq(&self, other: &JosaMap) -> (r: bool)
        ensures
            r == same_map(*self, *other),
    {
        self.same_as(other)
    }
}

impl vstd::std_specs::cmp::PartialEqSpecImpl for JosaMap {
    open spec fn obeys_eq_spec() -> bool {
        true
    }

    open spec fn eq_spec(&self, other: &JosaMap) -> bool {
        same_map(*self, *other)
    }
}

} // verus!
