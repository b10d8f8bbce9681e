//! Scoring that keeps up with a slider.
//!
//! Rows of seven axes are loaded once. Under every set of weights each row
//! gets its composite and its class anew. Axes and composites stand as the
//! bits of double-precision numbers; the composites are computed by the
//! caller.

use vstd::prelude::*;
use vstd::string::*;

use crate::ieee;
use crate::ranking;
use crate::ranking::{sort_stable, Ranked};
use crate::signal;
use crate::signal::{classify_with, Axes, SignalClass};
use crate::sorted_map;
use crate::text;
use crate::text::decimal_string;

verus! {

/// Columns of a row: the axes, and the composite last.
pub const STRIDE: usize = 8;

pub const CLASS_NONE: u8 = 0;

pub const CLASS_REFACTOR_CONVERGENCE: u8 = 1;

pub const CLASS_API_DRIFT: u8 = 2;

pub const CLASS_OWNERSHIP_FRAGMENTATION: u8 = 3;

pub const CLASS_INCIDENT_AFTERSHOCK: u8 = 4;

pub const CLASS_COUPLED_AMPLIFIER: u8 = 5;

pub const CLASS_FROZEN_NEGLECT: u8 = 6;

/// The number of a class; no class has the number zero.
pub open spec fn code_of(c: Option<SignalClass>) -> u8 {
    match c {
        None => CLASS_NONE,
        Some(SignalClass::RefactorConvergence) => CLASS_REFACTOR_CONVERGENCE,
        Some(SignalClass::ApiDrift) => CLASS_API_DRIFT,
        Some(SignalClass::OwnershipFragmentation) => CLASS_OWNERSHIP_FRAGMENTATION,
        Some(SignalClass::IncidentAftershock) => CLASS_INCIDENT_AFTERSHOCK,
        Some(SignalClass::CoupledAmplifier) => CLASS_COUPLED_AMPLIFIER,
        Some(SignalClass::FrozenNeglect) => CLASS_FROZEN_NEGLECT,
    }
}

/// Classes are told apart by their numbers.
pub proof fn code_of_injective(a: Option<SignalClass>, b: Option<SignalClass>)
    requires
        code_of(a) == code_of(b),
    ensures
        a == b,
{
}

/// The number of a class.
pub fn class_code(c: Option<SignalClass>) -> (r: u8)
    ensures
        r == code_of(c),
        r < 7,
{
    match c {
        None => CLASS_NONE,
        Some(SignalClass::RefactorConvergence) => CLASS_REFACTOR_CONVERGENCE,
        Some(SignalClass::ApiDrift) => CLASS_API_DRIFT,
        Some(SignalClass::OwnershipFragmentation) => CLASS_OWNERSHIP_FRAGMENTATION,
        Some(SignalClass::IncidentAftershock) => CLASS_INCIDENT_AFTERSHOCK,
        Some(SignalClass::CoupledAmplifier) => CLASS_COUPLED_AMPLIFIER,
        Some(SignalClass::FrozenNeglect) => CLASS_FROZEN_NEGLECT,
    }
}

/// The rows that are loaded and how they score.
pub struct Kernel {
    values: Vec<u64>,
    n: usize,
    incident: Vec<u8>,
    composites: Vec<u64>,
    classes: Vec<u8>,
}

/// A kernel as a value.
#[verifier::ext_equal]
pub struct KernelModel {
    /// Row by row, eight columns each.
    pub values: Seq<u64>,
    /// Per row, whether the file had an incident: nonzero if so.
    pub incident: Seq<u8>,
    pub composites: Seq<u64>,
    pub classes: Seq<u8>,
}

impl View for Kernel {
    type V = KernelModel;

    closed spec fn view(&self) -> KernelModel {
        KernelModel {
            values: self.values@,
            incident: self.incident@,
            composites: self.composites@,
            classes: self.classes@,
        }
    }
}

/// Every row is complete and has a score and a class.
pub open spec fn complete(k: KernelModel) -> bool {
    &&& k.values.len() == k.composites.len() * STRIDE
    &&& k.incident.len() == k.composites.len()
    &&& k.classes.len() == k.composites.len()
    &&& forall|i: int| 0 <= i < k.classes.len() ==> #[trigger] k.classes[i] < 7
}

/// The axes of a row.
pub open spec fn row_axes(values: Seq<u64>, i: int) -> Axes {
    Axes {
        change_density: values[i * STRIDE],
        author_entropy: values[i * STRIDE + 1],
        temporal_volatility: values[i * STRIDE + 2],
        coupling_stress: values[i * STRIDE + 3],
        blame_youth: values[i * STRIDE + 4],
        semantic_drift: values[i * STRIDE + 5],
        test_cooevolution: values[i * STRIDE + 6],
    }
}

/// The rows with the composites in their last column.
pub open spec fn with_composites(values: Seq<u64>, composites: Seq<u64>) -> Seq<u64> {
    Seq::new(
        values.len(),
        |j: int|
            if j % (STRIDE as int) == STRIDE - 1 {
                composites[j / (STRIDE as int)]
            } else {
                values[j]
            },
    )
}

/// The class of each row.
pub open spec fn row_classes(values: Seq<u64>, incident: Seq<u8>) -> Seq<u8> {
    Seq::new(
        incident.len(),
        |i: int| code_of(signal::class_of(row_axes(values, i), incident[i] != 0)),
    )
}

/// How a kernel scores under given composites: the axes and flags stay.
pub open spec fn rescored(k: KernelModel, composites: Seq<u64>) -> KernelModel {
    KernelModel {
        values: with_composites(k.values, composites),
        incident: k.incident,
        composites,
        classes: row_classes(k.values, k.incident),
    }
}

/// A row stands before another one: it scores higher, or the same and was
/// loaded earlier.
pub open spec fn ranks_before(composites: Seq<u64>, a: u32, b: u32) -> bool {
    ||| ieee::key(composites[a as int]) > ieee::key(composites[b as int])
    ||| ieee::key(composites[a as int]) == ieee::key(composites[b as int]) && a < b
}

/// The rows, each once.
pub open spec fn lists_rows(rows: u32, r: Seq<u32>) -> bool {
    &&& r.len() == rows
    &&& forall|i: int| 0 <= i < r.len() ==> #[trigger] r[i] < rows
    &&& r.no_duplicates()
}

/// Every composite is a number.
pub open spec fn all_numbers(composites: Seq<u64>) -> bool {
    forall|i: int| 0 <= i < composites.len() ==> !ieee::is_nan(#[trigger] composites[i])
}

/// The rows, each once, in rank order.
pub open spec fn is_rank(composites: Seq<u64>, rows: u32, r: Seq<u32>) -> bool {
    &&& lists_rows(rows, r)
    &&& forall|i: int, j: int|
        #![trigger r[i], r[j]]
        0 <= i < j < r.len() ==> ranks_before(composites, r[i], r[j])
}

/// How many rows have the class.
pub open spec fn class_count(classes: Seq<u8>, c: u8) -> nat
    decreases classes.len(),
{
    if classes.len() == 0 {
        0
    } else {
        class_count(classes.drop_last(), c) + if classes.last() == c {
            1nat
        } else {
            0
        }
    }
}

proof fn lemma_class_count_bounded(classes: Seq<u8>, c: u8)
    ensures
        class_count(classes, c) <= classes.len(),
    decreases classes.len(),
{
    if classes.len() > 0 {
        lemma_class_count_bounded(classes.drop_last(), c);
    }
}

/// A rescore keeps the axes, the flags and the shape of the rows.
pub proof fn rescore_keeps_rows(k: KernelModel, composites: Seq<u64>)
    requires
        complete(k),
        composites.len() == k.composites.len(),
    ensures
        complete(rescored(k, composites)),
        rescored(k, composites).incident == k.incident,
        forall|i: int|
            0 <= i < composites.len() ==> #[trigger] row_axes(rescored(k, composites).values, i)
                == row_axes(k.values, i),
        forall|i: int|
            0 <= i < composites.len() ==> #[trigger] rescored(k, composites).values[i * STRIDE + 7]
                == composites[i],
{
    let v = rescored(k, composites).values;
    assert forall|i: int| 0 <= i < composites.len() implies #[trigger] row_axes(v, i) == row_axes(
        k.values,
        i,
    ) by {
        lemma_columns(i);
    }
    assert forall|i: int| 0 <= i < composites.len() implies #[trigger] v[i * STRIDE + 7]
        == composites[i] by {
        lemma_columns(i);
    }
}

/// A rescore depends on the rows and the composites only: what was scored
/// before leaves no trace.
pub proof fn rescore_forgets(k: KernelModel, first: Seq<u64>, second: Seq<u64>)
    requires
        complete(k),
        first.len() == k.composites.len(),
        second.len() == k.composites.len(),
    ensures
        rescored(rescored(k, first), second) == rescored(k, second),
{
    rescore_keeps_rows(k, first);
    let v = rescored(k, first).values;
    assert(with_composites(v, second) =~= with_composites(k.values, second));
    assert forall|i: int| 0 <= i < k.incident.len() implies row_classes(v, k.incident)[i]
        == #[trigger] row_classes(k.values, k.incident)[i] by {
        assert(row_axes(v, i) == row_axes(k.values, i));
    }
    assert(row_classes(v, k.incident) =~= row_classes(k.values, k.incident));
}

proof fn lemma_columns(i: int)
    ensures
        forall|c: int|
            0 <= c < STRIDE ==> #[trigger] ((i * STRIDE + c) % (STRIDE as int)) == c && (i * STRIDE
                + c) / (STRIDE as int) == i,
{
    assert forall|c: int| 0 <= c < STRIDE implies #[trigger] ((i * STRIDE + c) % (STRIDE as int))
        == c && (i * STRIDE + c) / (STRIDE as int) == i by {
        vstd::arithmetic::div_mod::lemma_fundamental_div_mod_converse(
            i * STRIDE + c,
            STRIDE as int,
            i,
            c,
        );
    }
}

/// The refusal of values that are no whole rows.
pub open spec fn ragged_values(len: nat) -> Seq<char> {
    "values length "@ + text::decimal(len) + " is not a multiple of 8"@
}

/// The refusal of flags that do not match the rows.
pub open spec fn ragged_incident(len: nat, rows: nat) -> Seq<char> {
    "incident length "@ + text::decimal(len) + " does not match row count "@ + text::decimal(rows)
}

/// The refusal of weights that are not seven.
pub open spec fn wrong_weights(len: nat) -> Seq<char> {
    "expected 7 weights, got "@ + text::decimal(len)
}

fn copy_bits(v: &[u64]) -> (r: Vec<u64>)
    ensures
        r@ == v@,
{
    let mut r: Vec<u64> = Vec::new();
    let mut i: usize = 0;
    while i < v.len()
        invariant
            i <= v@.len(),
            r@ == v@.take(i as int),
        decreases v@.len() - i,
    {
        r.push(v[i]);
        assert(v@.take(i + 1) =~= v@.take(i as int).push(v@[i as int]));
        i = i + 1;
    }
    assert(v@.take(i as int) =~= v@);
    r
}

fn copy_bytes(v: &[u8]) -> (r: Vec<u8>)
    ensures
        r@ == v@,
{
    let mut r: Vec<u8> = Vec::new();
    let mut i: usize = 0;
    while i < v.len()
        invariant
            i <= v@.len(),
            r@ == v@.take(i as int),
        decreases v@.len() - i,
    {
        r.push(v[i]);
        assert(v@.take(i + 1) =~= v@.take(i as int).push(v@[i as int]));
        i = i + 1;
    }
    assert(v@.take(i as int) =~= v@);
    r
}

/// A row and its score.
pub struct Scored {
    pub score: u64,
    pub row: u32,
}

impl Ranked for Scored {
    open spec fn leq(self, other: Scored) -> bool {
        ||| ieee::key(self.score) > ieee::key(other.score)
        ||| ieee::key(self.score) == ieee::key(other.score) && self.row <= other.row
    }

    proof fn leq_total_preorder() {
    }

    fn at_most(&self, other: &Scored) -> (r: bool) {
        if ieee::key_above(self.score, other.score) {
            return true;
        }
        !ieee::key_above(other.score, self.score) && self.row <= other.row
    }
}

impl Kernel {
    /// Rows are complete, and counted.
    pub closed spec fn wf(&self) -> bool {
        &&& complete(self@)
        &&& self.n == self.composites@.len()
    }

    /// What a well-formed kernel gives.
    pub proof fn wf_complete(&self)
        requires
            self.wf(),
        ensures
            complete(self@),
    {
    }

    /// No rows.
    pub fn new() -> (r: Kernel)
        ensures
            r.wf(),
            r@ == (KernelModel {
                values: Seq::empty(),
                incident: Seq::empty(),
                composites: Seq::empty(),
                classes: Seq::empty(),
            }),
    {
        Kernel {
            values: Vec::new(),
            n: 0,
            incident: Vec::new(),
            composites: Vec::new(),
            classes: Vec::new(),
        }
    }

    /// How many rows there are.
    pub fn len(&self) -> (r: usize)
        requires
            self.wf(),
        ensures
            r == self@.composites.len(),
    {
        self.n
    }

    /// Whether there are no rows.
    pub fn is_empty(&self) -> (r: bool)
        requires
            self.wf(),
        ensures
            r == (self@.composites.len() == 0),
    {
        self.n == 0
    }

    /// Load rows of eight columns with a flag each. What does not fit is
    /// refused, and the kernel keeps what it had.
    pub fn try_load(&mut self, values: &[u64], incident: &[u8]) -> (r: Result<usize, String>)
        requires
            old(self).wf(),
        ensures
            final(self).wf(),
            match r {
                Err(m) => {
                    &&& *final(self) == *old(self)
                    &&& if values@.len() % (STRIDE as nat) != 0 {
                        m@ == ragged_values(values@.len())
                    } else {
                        incident@.len() != values@.len() / (STRIDE as nat) && m@ == ragged_incident(
                            incident@.len(),
                            values@.len() / (STRIDE as nat),
                        )
                    }
                },
                Ok(n) => {
                    &&& n * STRIDE == values@.len()
                    &&& n == incident@.len()
                    &&& final(self)@ == (KernelModel {
                        values: values@,
                        incident: incident@,
                        composites: Seq::new(n as nat, |i: int| 0u64),
                        classes: Seq::new(n as nat, |i: int| CLASS_NONE),
                    })
                },
            },
    {
        if values.len() % STRIDE != 0 {
            let mut m = "values length ".to_owned();
            m.append(decimal_string(values.len()).as_str());
            m.append(" is not a multiple of 8");
            return Err(m);
        }
        let n: usize = values.len() / STRIDE;
        if incident.len() != n {
            let mut m = "incident length ".to_owned();
            m.append(decimal_string(incident.len()).as_str());
            m.append(" does not match row count ");
            m.append(decimal_string(n).as_str());
            return Err(m);
        }
        let mut composites: Vec<u64> = Vec::new();
        let mut classes: Vec<u8> = Vec::new();
        let mut i: usize = 0;
        while i < n
            invariant
                i <= n,
                composites@ == Seq::new(i as nat, |i: int| 0u64),
                classes@ == Seq::new(i as nat, |i: int| CLASS_NONE),
            decreases n - i,
        {
            composites.push(0);
            classes.push(CLASS_NONE);
            i = i + 1;
        }
        *self = Kernel {
            values: copy_bits(values),
            n,
            incident: copy_bytes(incident),
            composites,
            classes,
        };
        Ok(n)
    }

    /// The axes of a row.
    pub fn axes(&self, i: usize) -> (r: Axes)
        requires
            self.wf(),
            i < self@.composites.len(),
        ensures
            r == row_axes(self@.values, i as int),
    {
        let len: usize = self.values.len();
        assert(i * STRIDE + STRIDE <= len);
        let base: usize = i * STRIDE;
        Axes {
            change_density: self.values[base],
            author_entropy: self.values[base + 1],
            temporal_volatility: self.values[base + 2],
            coupling_stress: self.values[base + 3],
            blame_youth: self.values[base + 4],
            semantic_drift: self.values[base + 5],
            test_cooevolution: self.values[base + 6],
        }
    }

    /// Score every row anew under seven weights. The composites are those of
    /// the rows under these weights, in the order in which they were loaded.
    pub fn try_rescore(&mut self, weights: &[u64], composites: &[u64]) -> (r: Result<(), String>)
        requires
            old(self).wf(),
            weights@.len() == 7 ==> composites@.len() == old(self)@.composites.len(),
        ensures
            final(self).wf(),
            match r {
                Err(m) => weights@.len() != 7 && m@ == wrong_weights(weights@.len())
                    && *final(self) == *old(self),
                Ok(()) => weights@.len() == 7 && final(self)@ == rescored(
                    old(self)@,
                    composites@,
                ),
            },
    {
        if weights.len() != 7 {
            let mut m = "expected 7 weights, got ".to_owned();
            m.append(decimal_string(weights.len()).as_str());
            return Err(m);
        }
        let ghost k = self@;
        let n: usize = self.n;
        let mut i: usize = 0;
        while i < n
            invariant
                i <= n,
                complete(k),
                n == k.composites.len(),
                n == composites@.len(),
                self.n == n,
                self.incident@ == k.incident,
                self.values@.len() == k.values.len(),
                self.composites@.len() == n,
                self.classes@.len() == n,
                forall|j: int|
                    #![trigger self.values@[j]]
                    0 <= j < i * STRIDE ==> self.values@[j] == with_composites(
                        k.values,
                        composites@,
                    )[j],
                forall|j: int|
                    #![trigger self.values@[j]]
                    i * STRIDE <= j < k.values.len() ==> self.values@[j] == k.values[j],
                forall|j: int| 0 <= j < i ==> self.composites@[j] == composites@[j],
                forall|j: int|
                    0 <= j < i ==> self.classes@[j] == row_classes(k.values, k.incident)[j],
            decreases n - i,
        {
            let len: usize = self.values.len();
            assert(i * STRIDE + STRIDE <= len);
            let base: usize = i * STRIDE;
            let m = Axes {
                change_density: self.values[base],
                author_entropy: self.values[base + 1],
                temporal_volatility: self.values[base + 2],
                coupling_stress: self.values[base + 3],
                blame_youth: self.values[base + 4],
                semantic_drift: self.values[base + 5],
                test_cooevolution: self.values[base + 6],
            };
            assert(m == row_axes(k.values, i as int));
            let composite: u64 = composites[i];
            self.values[base + 7] = composite;
            self.composites[i] = composite;
            let incident = self.incident[i] != 0;
            self.classes[i] = class_code(classify_with(&m, incident));
            proof {
                lemma_columns(i as int);
            }
            i = i + 1;
        }
        proof {
            assert(self.values@ =~= with_composites(k.values, composites@));
            assert(self.composites@ =~= composites@);
            assert(self.classes@ =~= row_classes(k.values, k.incident));
            rescore_keeps_rows(k, composites@);
        }
        Ok(())
    }

    /// Composites in load order.
    pub fn composites(&self) -> (r: Vec<u64>)
        ensures
            r@ == self@.composites,
    {
        copy_bits(&self.composites)
    }

    /// Class numbers in load order.
    pub fn classes(&self) -> (r: Vec<u8>)
        ensures
            r@ == self@.classes,
    {
        copy_bytes(&self.classes)
    }

    /// Rows by composite, the highest first; ties in load order. A composite
    /// that is no number compares with none: with one among them every row is
    /// still listed once, in an order of which nothing is said.
    pub fn rank(&self) -> (r: Vec<u32>)
        requires
            self.wf(),
        ensures
            lists_rows(self@.composites.len() as u32, r@),
            all_numbers(self@.composites) ==> is_rank(
                self@.composites,
                self@.composites.len() as u32,
                r@,
            ),
    {
        let ghost comps = self.composites@;
        let n: usize = self.n;
        let rows: u32 = #[verifier::truncate]
        (n as u32);
        assert((n as u32) <= n) by (bit_vector);
        let mut items: Vec<Scored> = Vec::new();
        let mut i: u32 = 0;
        while i < rows
            invariant
                i <= rows,
                rows <= n,
                n == self.n,
                self.wf(),
                comps == self.composites@,
                items@.len() == i,
                forall|j: int|
                    0 <= j < i ==> (#[trigger] items@[j]).row == j && items@[j].score == comps[j],
            decreases rows - i,
        {
            items.push(Scored { score: self.composites[i as usize], row: i });
            i = i + 1;
        }
        let ghost leq = ranking::by_rank::<Scored>();
        let ghost row = |x: Scored| x.row;
        let ghost given = items@;
        let sorted = sort_stable(items);
        proof {
            ranking::by_rank_is_total_preorder::<Scored>();
            ranking::ranked_is_ordered(given, leq);
            assert(given.map_values(row).no_duplicates());
            ranking::ranked_keeps_distinct(given, leq, row);
            assert forall|j: int| 0 <= j < sorted@.len() implies (#[trigger] sorted@[j]).row < rows
                && sorted@[j].score == comps[sorted@[j].row as int] by {
                ranking::ranked_same_members(given, leq, sorted@[j]);
                assert(sorted@.contains(sorted@[j]));
                let q = choose|q: int| 0 <= q < given.len() && given[q] == sorted@[j];
                assert(given[q].row == q);
            }
        }
        let mut r: Vec<u32> = Vec::new();
        let mut j: usize = 0;
        while j < sorted.len()
            invariant
                j <= sorted@.len(),
                r@ == sorted@.map_values(row).take(j as int),
                row == |x: Scored| x.row,
            decreases sorted@.len() - j,
        {
            r.push(sorted[j].row);
            assert(sorted@.map_values(row).take(j + 1) =~= sorted@.map_values(row).take(
                j as int,
            ).push(sorted@[j as int].row));
            j = j + 1;
        }
        proof {
            assert(r@ =~= sorted@.map_values(row));
            assert forall|x: int, y: int| 0 <= x < y < r@.len() implies ranks_before(
                comps,
                #[trigger] r@[x],
                #[trigger] r@[y],
            ) by {
                assert(leq(sorted@[x], sorted@[y]));
                assert(sorted@.map_values(row)[x] != sorted@.map_values(row)[y]);
            }
        }
        r
    }

    /// How many rows each class has, by its number.
    pub fn class_histogram(&self) -> (r: Vec<u32>)
        requires
            self.wf(),
            self@.classes.len() <= u32::MAX,
        ensures
            r@.len() == 7,
            forall|c: int|
                0 <= c < 7 ==> #[trigger] r@[c] == class_count(self@.classes, c as u8),
    {
        let ghost classes = self.classes@;
        let mut h: Vec<u32> = Vec::new();
        let mut c: usize = 0;
        while c < 7
            invariant
                c <= 7,
                h@.len() == c,
                forall|x: int| 0 <= x < c ==> h@[x] == 0,
            decreases 7 - c,
        {
            h.push(0);
            c = c + 1;
        }
        let mut i: usize = 0;
        while i < self.classes.len()
            invariant
                i <= classes.len(),
                classes == self.classes@,
                classes.len() <= u32::MAX,
                self.wf(),
                h@.len() == 7,
                forall|x: int|
                    0 <= x < 7 ==> #[trigger] h@[x] == class_count(
                        classes.take(i as int),
                        x as u8,
                    ),
            decreases classes.len() - i,
        {
            let k: usize = self.classes[i] as usize;
            proof {
                assert(self@.classes[i as int] < 7);
                assert(classes.take(i + 1).drop_last() =~= classes.take(i as int));
                lemma_class_count_bounded(classes.take(i as int), k as u8);
            }
            h[k] = h[k] + 1;
            i = i + 1;
        }
        assert(classes.take(i as int) =~= classes);
        h
    }
}

impl Default for Kernel {
    fn default() -> (r: Self)
        ensures
            r.wf(),
            r@ == (KernelModel {
                values: Seq::empty(),
                incident: Seq::empty(),
                composites: Seq::empty(),
                classes: Seq::empty(),
            }),
    {
        Self::new()
    }
}

/// The name of each class, by its number.
pub open spec fn class_name_list() -> Seq<Seq<char>> {
    seq![
        ""@,
        "refactor_convergence"@,
        "api_drift"@,
        "ownership_fragmentation"@,
        "incident_aftershock"@,
        "coupled_amplifier"@,
        "frozen_neglect"@,
    ]
}

/// The name of each class, by its number.
pub fn class_names() -> (r: Vec<String>)
    ensures
        sorted_map::texts(r@) == class_name_list(),
{
    let mut r: Vec<String> = Vec::new();
    r.push("".to_owned());
    r.push("refactor_convergence".to_owned());
    r.push("api_drift".to_owned());
    r.push("ownership_fragmentation".to_owned());
    r.push("incident_aftershock".to_owned());
    r.push("coupled_amplifier".to_owned());
    r.push("frozen_neglect".to_owned());
    assert(sorted_map::texts(r@) =~= class_name_list());
    r
}

/// The columns of a row, in order.
pub open spec fn column_names() -> Seq<Seq<char>> {
    seq![
        "change_density"@,
        "author_entropy"@,
        "temporal_volatility"@,
        "coupling_stress"@,
        "blame_youth"@,
        "semantic_drift"@,
        "test_cooevolution"@,
        "composite"@,
    ]
}

/// `entropyx_tq::Dict::METRIC_COLUMNS` is an array of eight names: those of
/// `column_names`, in that order.
#[verifier::external_body]
fn tq_metric_columns() -> (r: Vec<String>)
    ensures
        sorted_map::texts(r@) == column_names(),
{
    entropyx_tq::Dict::METRIC_COLUMNS.map(String::from).to_vec()
}

/// The columns of a row, in order.
pub fn metric_columns() -> (r: Vec<String>)
    ensures
        sorted_map::texts(r@) == column_names(),
{
    tq_metric_columns()
}

/// `entropyx_core::CONTRACT_VERSION` is the text `0.1.0`.
#[verifier::external_body]
fn core_contract_version() -> (r: String)
    ensures
        r@ == "0.1.0"@,
{
    String::from(entropyx_core::CONTRACT_VERSION)
}

/// The contract that scores are comparable under.
pub fn contract_version() -> (r: String)
    ensures
        r@ == "0.1.0"@,
{
    core_contract_version()
}

/// The bits of the weights 0.15, 0.15, 0.10, 0.20, 0.10, 0.30 and 0.05.
pub open spec fn stock_weights() -> Seq<u64> {
    seq![
        0x3fc3_3333_3333_3333,
        0x3fc3_3333_3333_3333,
        0x3fb9_9999_9999_999a,
        0x3fc9_9999_9999_999a,
        0x3fb9_9999_9999_999a,
        0x3fd3_3333_3333_3333,
        0x3fa9_9999_9999_999a,
    ]
}

/// `entropyx_core::MetricComponents::DEFAULT_WEIGHTS` holds seven numbers,
/// whose bits in the order d, h, v, c, b, s, t are `stock_weights`.
#[verifier::external_body]
fn core_default_weights() -> (r: Vec<u64>)
    ensures
        r@ == stock_weights(),
{
    let w = entropyx_core::MetricComponents::DEFAULT_WEIGHTS;
    vec![
        w.theta_d.to_bits(),
        w.theta_h.to_bits(),
        w.theta_v.to_bits(),
        w.theta_c.to_bits(),
        w.theta_b.to_bits(),
        w.theta_s.to_bits(),
        w.theta_t.to_bits(),
    ]
}

/// The weights of a stock scan, as bits, in the order of a rescore.
pub fn default_weights() -> (r: Vec<u64>)
    ensures
        r@ == stock_weights(),
{
    core_default_weights()
}

/// The rank of rows is settled by their composites: there is one only.
pub proof fn rank_is_unique(composites: Seq<u64>, rows: u32, a: Seq<u32>, b: Seq<u32>)
    requires
        is_rank(composites, rows, a),
        is_rank(composites, rows, b),
    ensures
        a == b,
{
    let less = |x: u32, y: u32| ranks_before(composites, x, y);
    assert(ranking::strict_order(less));
    assert(ranking::strictly_ordered(a, less));
    assert(ranking::strictly_ordered(b, less));
    assert forall|x: u32| #[trigger] a.contains(x) <==> b.contains(x) by {
        rank_lists_every_row(rows, a, x);
        rank_lists_every_row(rows, b, x);
    }
    ranking::strict_listing_unique(a, b, less);
}

/// The rank holds every row, and nothing else.
pub proof fn rank_lists_every_row(rows: u32, r: Seq<u32>, x: u32)
    requires
        lists_rows(rows, r),
    ensures
        r.contains(x) <==> x < rows,
{
    let s = r.map_values(|y: u32| y as int);
    assert(s.no_duplicates()) by {
        assert forall|i: int, j: int| 0 <= i < s.len() && 0 <= j < s.len() && i != j implies s[i]
            != s[j] by {
            assert(r[i] != r[j]);
        }
    }
    ranking::distinct_numbers_are_all(s, rows as nat);
    if x < rows {
        assert(s.contains(x as int));
        let i = choose|i: int| 0 <= i < s.len() && s[i] == x as int;
        assert(r[i] == x);
    }
}

/// The class of a row comes from its axes and its flag: the weights have no
/// part in it.
pub proof fn classes_ignore_weights(k: KernelModel, first: Seq<u64>, second: Seq<u64>)
    ensures
        rescored(k, first).classes == rescored(k, second).classes,
{
}

// ---- what the columns and numbers stand for --------------------------

/// The column that has an axis's name holds that axis, in every row: none is
/// read from another's place.
pub proof fn axes_follow_column_names(values: Seq<u64>, i: int, c: int)
    requires
        0 <= c < 8,
    ensures
        column_names().len() == 8,
        column_names()[c] == "change_density"@ ==> row_axes(values, i).change_density == values[i
            * 8 + c],
        column_names()[c] == "author_entropy"@ ==> row_axes(values, i).author_entropy == values[i
            * 8 + c],
        column_names()[c] == "temporal_volatility"@ ==> row_axes(values, i).temporal_volatility
            == values[i * 8 + c],
        column_names()[c] == "coupling_stress"@ ==> row_axes(values, i).coupling_stress
            == values[i * 8 + c],
        column_names()[c] == "blame_youth"@ ==> row_axes(values, i).blame_youth == values[i * 8
            + c],
        column_names()[c] == "semantic_drift"@ ==> row_axes(values, i).semantic_drift == values[i
            * 8 + c],
        column_names()[c] == "test_cooevolution"@ ==> row_axes(values, i).test_cooevolution
            == values[i * 8 + c],
{
    reveal_strlit("change_density");
    reveal_strlit("author_entropy");
    reveal_strlit("temporal_volatility");
    reveal_strlit("coupling_stress");
    reveal_strlit("blame_youth");
    reveal_strlit("semantic_drift");
    reveal_strlit("test_cooevolution");
    reveal_strlit("composite");
    assert("change_density"@[0] == 'c');
    assert("author_entropy"@[0] == 'a');
    assert("semantic_drift"@[0] == 's');
    let n = column_names();
    assert(n[0].len() == 14 && n[0][0] == 'c' && n[1].len() == 14 && n[1][0] == 'a' && n[2].len()
        == 19 && n[3].len() == 15 && n[4].len() == 11 && n[5].len() == 14 && n[5][0] == 's'
        && n[6].len() == 17 && n[7].len() == 9);
    let a = row_axes(values, i);
    if c == 0 {
        assert(a.change_density == values[i * 8 + c]);
    } else if c == 1 {
        assert(a.author_entropy == values[i * 8 + c]);
    } else if c == 2 {
        assert(a.temporal_volatility == values[i * 8 + c]);
    } else if c == 3 {
        assert(a.coupling_stress == values[i * 8 + c]);
    } else if c == 4 {
        assert(a.blame_youth == values[i * 8 + c]);
    } else if c == 5 {
        assert(a.semantic_drift == values[i * 8 + c]);
    } else if c == 6 {
        assert(a.test_cooevolution == values[i * 8 + c]);
    }
}

/// A row that holds seven axes in the order of the columns gives them back as
/// they went in, and has the class that goes with them.
pub proof fn rows_give_back_axes(
    k: KernelModel,
    composites: Seq<u64>,
    i: int,
    m: Axes,
    composite: u64,
)
    requires
        complete(k),
        0 <= i < k.incident.len(),
        composites.len() == k.incident.len(),
        k.values.subrange(i * 8, i * 8 + 8) == seq![
            m.change_density,
            m.author_entropy,
            m.temporal_volatility,
            m.coupling_stress,
            m.blame_youth,
            m.semantic_drift,
            m.test_cooevolution,
            composite,
        ],
    ensures
        row_axes(k.values, i) == m,
        rescored(k, composites).classes[i] == code_of(
            crate::signal::class_of(m, k.incident[i] != 0),
        ),
        rescored(k, composites).values.subrange(i * 8, i * 8 + 8) == seq![
            m.change_density,
            m.author_entropy,
            m.temporal_volatility,
            m.coupling_stress,
            m.blame_youth,
            m.semantic_drift,
            m.test_cooevolution,
            composites[i],
        ],
        rescored(k, composites).composites[i] == composites[i],
        rescored(k, composites).incident == k.incident,
{
    let row = k.values.subrange(i * 8, i * 8 + 8);
    assert(forall|c: int| 0 <= c < 8 ==> #[trigger] row[c] == k.values[i * 8 + c]);
    assert(row[0] == k.values[i * 8 + 0]);
    assert(row[1] == m.author_entropy && row[2] == m.temporal_volatility && row[3]
        == m.coupling_stress && row[4] == m.blame_youth && row[5] == m.semantic_drift && row[6]
        == m.test_cooevolution && row[7] == composite);
    let a = row_axes(k.values, i);
    assert(a.change_density == k.values[i * 8]);
    lemma_columns(i);
    let after = rescored(k, composites).values;
    assert forall|c: int| 0 <= c < 8 implies #[trigger] after.subrange(i * 8, i * 8 + 8)[c]
        == row.update(7, composites[i])[c] by {
        assert(after[i * 8 + c] == if c == 7 {
            composites[i]
        } else {
            k.values[i * 8 + c]
        });
    }
    assert(after.subrange(i * 8, i * 8 + 8) =~= row.update(7, composites[i]));
}

/// The classes are numbered in this order, from none at zero, and the number of
/// a class is the place of its name.
pub proof fn class_numbers_are_places_of_names()
    ensures
        code_of(None) == 0,
        code_of(Some(SignalClass::RefactorConvergence)) == 1,
        code_of(Some(SignalClass::ApiDrift)) == 2,
        code_of(Some(SignalClass::OwnershipFragmentation)) == 3,
        code_of(Some(SignalClass::IncidentAftershock)) == 4,
        code_of(Some(SignalClass::CoupledAmplifier)) == 5,
        code_of(Some(SignalClass::FrozenNeglect)) == 6,
        class_name_list().len() == 7,
        class_name_list()[code_of(None) as int] == ""@,
        class_name_list()[code_of(Some(SignalClass::RefactorConvergence)) as int]
            == "refactor_convergence"@,
        class_name_list()[code_of(Some(SignalClass::ApiDrift)) as int] == "api_drift"@,
        class_name_list()[code_of(Some(SignalClass::OwnershipFragmentation)) as int]
            == "ownership_fragmentation"@,
        class_name_list()[code_of(Some(SignalClass::IncidentAftershock)) as int]
            == "incident_aftershock"@,
        class_name_list()[code_of(Some(SignalClass::CoupledAmplifier)) as int]
            == "coupled_amplifier"@,
        class_name_list()[code_of(Some(SignalClass::FrozenNeglect)) as int] == "frozen_neglect"@,
{
}

/// Where every composite is a number, no row stands behind one whose composite
/// is less, and rows with equal composites stand in the order of their numbers.
pub proof fn rank_descends(composites: Seq<u64>, rows: u32, r: Seq<u32>, i: int, j: int)
    requires
        is_rank(composites, rows, r),
        all_numbers(composites),
        rows == composites.len(),
        0 <= i < j < r.len(),
    ensures
        !crate::ieee::greater(composites[r[j] as int], composites[r[i] as int]),
        crate::ieee::at_least(composites[r[j] as int], composites[r[i] as int]) ==> r[i] < r[j],
        r.len() == rows,
        r[i] != r[j],
{
    assert(ranks_before(composites, r[i], r[j]));
}

/// The classes are counted one by one: a class counts the rows that have it.
pub proof fn class_counts_its_rows(classes: Seq<u8>, c: u8)
    ensures
        class_count(classes, c) == classes.filter(|x: u8| x == c).len(),
    decreases classes.len(),
{
    reveal(Seq::filter);
    if classes.len() > 0 {
        class_counts_its_rows(classes.drop_last(), c);
    }
}

/// A refusal says how many values came and how many would do.
pub proof fn refusals_name_the_numbers(len: nat, rows: nat)
    ensures
        ragged_values(len) == "values length "@ + text::decimal(len) + " is not a multiple of 8"@,
        ragged_incident(len, rows) == "incident length "@ + text::decimal(len)
            + " does not match row count "@ + text::decimal(rows),
        wrong_weights(len) == "expected 7 weights, got "@ + text::decimal(len),
{
}

} // verus!
