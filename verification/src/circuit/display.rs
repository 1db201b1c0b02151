//! The state of a circuit as text: the tick, then the inputs and the
//! outputs with their levels, each list in the order of the names.

use vstd::prelude::*;
use vstd::string::*;

use crate::circuit::{Circuit, distinct, index_of, lemma_index_of};
use crate::components::Tick;
use crate::components::tristate::Tristate;
use crate::text::{decimal, number_to_string, to_chars};

verus! {

/// How far two texts agree from position `i` on: the first position at
/// which they differ or one of them ends.
pub open spec fn common(a: Seq<char>, b: Seq<char>, i: int) -> int
    decreases a.len() - i,
{
    if i < 0 || i >= a.len() || i >= b.len() || a[i] != b[i] {
        i
    } else {
        common(a, b, i + 1)
    }
}

/// Whether `a` comes before `b` in the order of the dictionary, character
/// by character in the order of their code points; a text comes after
/// each of its proper beginnings.
pub open spec fn before(a: Seq<char>, b: Seq<char>) -> bool {
    let k = common(a, b, 0);
    k < b.len() && (k == a.len() || a[k] < b[k])
}

/// Up to the position that `common` gives the texts agree, and there they
/// differ unless one of them ends.
pub proof fn lemma_common(a: Seq<char>, b: Seq<char>, i: int)
    requires
        0 <= i <= a.len(),
        i <= b.len(),
    ensures
        i <= common(a, b, i) <= a.len(),
        common(a, b, i) <= b.len(),
        forall|j: int| i <= j < common(a, b, i) ==> a[j] == b[j],
        common(a, b, i) < a.len() && common(a, b, i) < b.len() ==> a[common(a, b, i)] != b[common(
            a,
            b,
            i,
        )],
    decreases a.len() - i,
{
    if !(i >= a.len() || i >= b.len() || a[i] != b[i]) {
        lemma_common(a, b, i + 1);
    }
}

/// A position up to which two texts agree, and at which they differ
/// unless one of them ends, is the position that `common` gives.
pub proof fn lemma_common_is(a: Seq<char>, b: Seq<char>, k: int)
    requires
        0 <= k <= a.len(),
        k <= b.len(),
        forall|j: int| 0 <= j < k ==> a[j] == b[j],
        k < a.len() && k < b.len() ==> a[k] != b[k],
    ensures
        common(a, b, 0) == k,
{
    lemma_common(a, b, 0);
    let c = common(a, b, 0);
    if c < k {
        assert(a[c] == b[c]);
    } else if c > k {
        assert(a[k] == b[k]);
    }
}

/// The order of the dictionary is strict, total on distinct texts, and
/// transitive.
pub proof fn lemma_before(a: Seq<char>, b: Seq<char>, c: Seq<char>)
    ensures
        !before(a, a),
        before(a, b) ==> !before(b, a),
        a != b ==> before(a, b) || before(b, a),
        before(a, b) && before(b, c) ==> before(a, c),
{
    lemma_common(a, a, 0);
    lemma_common(a, b, 0);
    lemma_common(b, a, 0);
    lemma_common(b, c, 0);
    lemma_common_is(b, a, common(a, b, 0));
    let k = common(a, b, 0);
    if a != b && !before(a, b) && !before(b, a) {
        if k < a.len() && k < b.len() {
            assert(a[k] != b[k]);
        }
        assert(k == a.len() && k == b.len());
        assert(a =~= b);
    }
    if before(a, b) && before(b, c) {
        let m = common(b, c, 0);
        if k < m {
            assert forall|j: int| 0 <= j < k implies a[j] == c[j] by {
                assert(b[j] == c[j]);
            }
            assert(b[k] == c[k]);
            lemma_common_is(a, c, k);
        } else if k > m {
            assert forall|j: int| 0 <= j < m implies a[j] == c[j] by {
                assert(a[j] == b[j]);
            }
            assert(a[m] == b[m]);
            lemma_common_is(a, c, m);
        } else {
            assert forall|j: int| 0 <= j < k implies a[j] == c[j] by {
                assert(a[j] == b[j]);
                assert(b[j] == c[j]);
            }
            lemma_common_is(a, c, k);
        }
    }
}

/// Whether `a` comes before `b` in the order of the dictionary.
pub fn comes_before(a: &str, b: &str) -> (r: bool)
    ensures
        r == before(a@, b@),
{
    let x = to_chars(a);
    let y = to_chars(b);
    let mut k: usize = 0;
    while k < x.len() && k < y.len() && x[k] == y[k]
        invariant
            x@ == a@,
            y@ == b@,
            k <= x@.len(),
            k <= y@.len(),
            forall|j: int| 0 <= j < k ==> x@[j] == y@[j],
        decreases x@.len() - k,
    {
        k += 1;
    }
    proof {
        lemma_common_is(x@, y@, k as int);
    }
    k < y.len() && (k == x.len() || x[k] < y[k])
}

/// Whether the texts of a list stand in the order of the dictionary, none
/// twice.
pub open spec fn increasing(s: Seq<Seq<char>>) -> bool {
    forall|i: int, j: int| 0 <= i < j < s.len() ==> before(#[trigger] s[i], #[trigger] s[j])
}

/// Two lists in the order of the dictionary that hold the same texts are
/// one list.
pub proof fn lemma_increasing_unique(x: Seq<Seq<char>>, y: Seq<Seq<char>>)
    requires
        increasing(x),
        increasing(y),
        forall|v: Seq<char>| x.contains(v) <==> y.contains(v),
    ensures
        x == y,
    decreases x.len(),
{
    if x.len() == 0 {
        if y.len() > 0 {
            assert(y.contains(y[0]));
        }
        assert(x =~= y);
    } else if y.len() == 0 {
        assert(x.contains(x[0]));
    } else {
        assert(x.contains(x[0]));
        assert(y.contains(y[0]));
        let i = choose|i: int| 0 <= i < y.len() && y[i] == x[0];
        let j = choose|j: int| 0 <= j < x.len() && x[j] == y[0];
        lemma_before(x[0], y[0], x[0]);
        if i > 0 {
            assert(before(y[0], y[i]));
            if j > 0 {
                assert(before(x[0], x[j]));
            }
        }
        assert(x[0] == y[0]);
        let p = x.skip(1);
        let q = y.skip(1);
        assert forall|v: Seq<char>| p.contains(v) <==> q.contains(v) by {
            if p.contains(v) {
                let m = choose|m: int| 0 <= m < p.len() && p[m] == v;
                assert(x[m + 1] == v);
                assert(before(x[0], x[m + 1]));
                lemma_before(x[0], v, x[0]);
                assert(x.contains(v));
                let n = choose|n: int| 0 <= n < y.len() && y[n] == v;
                assert(n != 0);
                assert(q[n - 1] == v);
            }
            if q.contains(v) {
                let m = choose|m: int| 0 <= m < q.len() && q[m] == v;
                assert(y[m + 1] == v);
                assert(before(y[0], y[m + 1]));
                lemma_before(y[0], v, y[0]);
                assert(y.contains(v));
                let n = choose|n: int| 0 <= n < x.len() && x[n] == v;
                assert(n != 0);
                assert(p[n - 1] == v);
            }
        }
        assert forall|m: int, n: int| 0 <= m < n < p.len() implies before(
            #[trigger] p[m],
            #[trigger] p[n],
        ) by {
            assert(before(x[m + 1], x[n + 1]));
        }
        assert forall|m: int, n: int| 0 <= m < n < q.len() implies before(
            #[trigger] q[m],
            #[trigger] q[n],
        ) by {
            assert(before(y[m + 1], y[n + 1]));
        }
        lemma_increasing_unique(p, q);
        assert(x =~= seq![x[0]] + p);
        assert(y =~= seq![y[0]] + q);
    }
}

/// The texts of a set in the order of the dictionary, if the set is
/// finite.
pub open spec fn in_order(names: Set<Seq<char>>) -> Seq<Seq<char>> {
    choose|s: Seq<Seq<char>>| increasing(s) && forall|v: Seq<char>| s.contains(v) <==> names.contains(v)
}

/// What a circuit shows: for each name, the level of the input of that
/// name and the level of the output of that name, where there is one.
pub struct Readings {
    pub inputs: Map<Seq<char>, Tristate>,
    pub outputs: Map<Seq<char>, Tristate>,
}

/// One line of a list: the name and the level.
pub open spec fn entry(name: Seq<char>, state: Tristate) -> Seq<char> {
    "  "@ + name + ": "@ + state.render() + "\n"@
}

/// The lines of a list for the first `k` of `names`: one for each name
/// that has a level, in the order of `names`.
pub open spec fn section(names: Seq<Seq<char>>, levels: Map<Seq<char>, Tristate>, k: int) -> Seq<
    char,
>
    decreases k,
{
    if k <= 0 {
        Seq::empty()
    } else if levels.contains_key(names[k - 1]) {
        section(names, levels, k - 1) + entry(names[k - 1], levels[names[k - 1]])
    } else {
        section(names, levels, k - 1)
    }
}

/// The state of a circuit as text: the tick, the inputs and the outputs,
/// with the names listed in the order `names`.
pub open spec fn listing(tick: Tick, names: Seq<Seq<char>>, readings: Readings) -> Seq<char> {
    "tick: "@ + decimal(tick as nat) + "\n"@ + "input(s):\n"@ + section(
        names,
        readings.inputs,
        names.len() as int,
    ) + "output(s):\n"@ + section(names, readings.outputs, names.len() as int)
}

impl Circuit {
    /// What the circuit shows.
    pub open spec fn readings(self) -> Readings {
        Readings {
            inputs: Map::new(
                |name: Seq<char>|
                    self.components().contains_key(name) && self.components()[name].input_state()
                        is Some,
                |name: Seq<char>| self.components()[name].input_state().unwrap(),
            ),
            outputs: Map::new(
                |name: Seq<char>|
                    self.components().contains_key(name) && self.components()[name].output_value()
                        is Some,
                |name: Seq<char>| self.components()[name].output_value().unwrap(),
            ),
        }
    }

    /// The state of the circuit as text: it depends on the tick, on the
    /// names and on what the components of these names show, and on
    /// nothing else.
    pub open spec fn rendering(self) -> Seq<char> {
        listing(self.current_tick, in_order(self.components().dom()), self.readings())
    }

    /// The names of the components at the positions `order`.
    pub open spec fn names_at(self, order: Seq<usize>) -> Seq<Seq<char>> {
        Seq::new(order.len(), |i: int| self.names@[order[i] as int]@)
    }

    /// The positions of the components in the order of their names.
    pub fn sorted_positions(&self) -> (order: Vec<usize>)
        requires
            self.well_formed(),
        ensures
            order@.len() == self.names@.len(),
            forall|i: int| 0 <= i < order@.len() ==> (#[trigger] order@[i]) < self.names@.len(),
            self.names_at(order@) == in_order(self.components().dom()),
    {
        let mut order: Vec<usize> = Vec::new();
        let n = self.names.len();
        let mut i: usize = 0;
        while i < n
            invariant
                i <= n,
                n == self.names@.len(),
                self.well_formed(),
                order@.len() == i,
                forall|k: int| 0 <= k < order@.len() ==> (#[trigger] order@[k]) < i,
                forall|c: usize| c < i ==> #[trigger] order@.contains(c),
                increasing(self.names_at(order@)),
            decreases n - i,
        {
            let mut p: usize = 0;
            while p < order.len() && comes_before(
                self.names[order[p]].as_str(),
                self.names[i].as_str(),
            )
                invariant
                    p <= order@.len(),
                    i < n,
                    n == self.names@.len(),
                    order@.len() == i,
                    forall|k: int| 0 <= k < order@.len() ==> (#[trigger] order@[k]) < i,
                    forall|k: int|
                        0 <= k < p ==> before(
                            self.names@[(#[trigger] order@[k]) as int]@,
                            self.names@[i as int]@,
                        ),
                decreases order@.len() - p,
            {
                p += 1;
            }
            let ghost old_order = order@;
            order.insert(p, i);
            proof {
                let before_names = self.names_at(old_order);
                let after_names = self.names_at(order@);
                let new_name = self.names@[i as int]@;
                assert forall|x: int, y: int| 0 <= x < y < after_names.len() implies before(
                    #[trigger] after_names[x],
                    #[trigger] after_names[y],
                ) by {
                    let ox = if x < p {
                        x
                    } else {
                        x - 1
                    };
                    let oy = if y < p {
                        y
                    } else {
                        y - 1
                    };
                    if x == p {
                        assert(after_names[y] == before_names[oy]);
                        assert(old_order[oy] < i);
                        assert(self.names@[old_order[oy] as int]@ != new_name);
                        if p < old_order.len() {
                            assert(!before(before_names[p as int], new_name));
                            lemma_before(before_names[p as int], new_name, new_name);
                            assert(old_order[p as int] < i);
                            assert(self.names@[old_order[p as int] as int]@ != new_name);
                            if oy > p {
                                assert(before(before_names[p as int], before_names[oy]));
                                lemma_before(new_name, before_names[p as int], before_names[oy]);
                            }
                        }
                    } else if y == p {
                        assert(after_names[x] == before_names[ox]);
                    } else {
                        assert(after_names[x] == before_names[ox]);
                        assert(after_names[y] == before_names[oy]);
                        assert(before(before_names[ox], before_names[oy]));
                    }
                }
                assert forall|c: usize| c < i + 1 implies #[trigger] order@.contains(c) by {
                    if c < i {
                        assert(old_order.contains(c));
                        let k = choose|k: int| 0 <= k < old_order.len() && old_order[k] == c;
                        if k < p {
                            assert(order@[k] == c);
                        } else {
                            assert(order@[k + 1] == c);
                        }
                    } else {
                        assert(order@[p as int] == i);
                    }
                }
            }
            i += 1;
        }
        proof {
            let sorted = self.names_at(order@);
            let dom = self.components().dom();
            assert forall|v: Seq<char>| sorted.contains(v) <==> dom.contains(v) by {
                if sorted.contains(v) {
                    let k = choose|k: int| 0 <= k < sorted.len() && sorted[k] == v;
                    lemma_index_of(self.names@, v, order@[k] as int);
                }
                if dom.contains(v) {
                    let c = index_of(self.names@, v).unwrap() as usize;
                    assert(order@.contains(c));
                    let k = choose|k: int| 0 <= k < order@.len() && order@[k] == c;
                    assert(sorted[k] == v);
                }
            }
            let chosen = in_order(dom);
            assert(increasing(chosen) && forall|v: Seq<char>|
                chosen.contains(v) <==> dom.contains(v));
            lemma_increasing_unique(sorted, chosen);
        }
        order
    }
}

impl Circuit {
    /// The state of the circuit as text: the line `tick: ` with the number
    /// of the tick, the line `input(s):` and one line `  name: level` for
    /// each input, the line `output(s):` and one such line for each
    /// output. Inputs and outputs are listed in the order of their names,
    /// whatever the order in which the components were added.
    pub fn to_string(&self) -> (r: String)
        requires
            self.well_formed(),
        ensures
            r@ == self.rendering(),
    {
        let order = self.sorted_positions();
        let ghost names = self.names_at(order@);
        let ghost readings = self.readings();
        let mut r = "tick: ".to_owned();
        let number = number_to_string(self.current_tick);
        r.append(number.as_str());
        r.append("\n");
        r.append("input(s):\n");
        let ghost head = r@;
        assert(r@ =~= head + section(names, readings.inputs, 0));
        let mut k: usize = 0;
        while k < order.len()
            invariant
                k <= order@.len(),
                self.well_formed(),
                order@.len() == self.names@.len(),
                forall|i: int| 0 <= i < order@.len() ==> (#[trigger] order@[i]) < self.names@.len(),
                names == self.names_at(order@),
                readings == self.readings(),
                r@ == head + section(names, readings.inputs, k as int),
            decreases order@.len() - k,
        {
            let position = order[k];
            proof {
                self.lemma_position(names[k as int], position as int);
            }
            if let Some(state) = self.board.chipsets[position].input_level() {
                r.append("  ");
                r.append(self.names[position].as_str());
                r.append(": ");
                r.append(state.as_str());
                r.append("\n");
                assert(r@ =~= head + section(names, readings.inputs, k + 1));
            }
            k += 1;
        }
        r.append("output(s):\n");
        let ghost middle = r@;
        assert(r@ =~= middle + section(names, readings.outputs, 0));
        let mut k: usize = 0;
        while k < order.len()
            invariant
                k <= order@.len(),
                self.well_formed(),
                order@.len() == self.names@.len(),
                forall|i: int| 0 <= i < order@.len() ==> (#[trigger] order@[i]) < self.names@.len(),
                names == self.names_at(order@),
                readings == self.readings(),
                r@ == middle + section(names, readings.outputs, k as int),
            decreases order@.len() - k,
        {
            let position = order[k];
            proof {
                self.lemma_position(names[k as int], position as int);
            }
            if let Some(state) = self.board.chipsets[position].output_level() {
                r.append("  ");
                r.append(self.names[position].as_str());
                r.append(": ");
                r.append(state.as_str());
                r.append("\n");
                assert(r@ =~= middle + section(names, readings.outputs, k + 1));
            }
            k += 1;
        }
        assert(r@ =~= self.rendering());
        r
    }

    /// The text that shows a circuit is stable under reordering: two
    /// circuits at the same tick whose components have the same names and
    /// show the same levels under each name are shown by the same text,
    /// in whatever order their components were added.
    pub proof fn rendering_ignores_insertion_order(self, other: Circuit)
        requires
            self.well_formed(),
            other.well_formed(),
            self.current_tick == other.current_tick,
            forall|name: Seq<char>|
                self.components().contains_key(name) <==> other.components().contains_key(name),
            forall|name: Seq<char>| #[trigger]
                self.components().contains_key(name) ==> {
                    &&& self.components()[name].input_state()
                        == other.components()[name].input_state()
                    &&& self.components()[name].output_value()
                        == other.components()[name].output_value()
                },
        ensures
            self.rendering() == other.rendering(),
    {
        assert(self.components().dom() =~= other.components().dom());
        assert(self.readings().inputs =~= other.readings().inputs);
        assert(self.readings().outputs =~= other.readings().outputs);
    }
}

} // verus!
