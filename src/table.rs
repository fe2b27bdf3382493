//! The five tables of a trace, their mathematical views, and the
//! orderings of the Memory and Instruction tables.
use crate::field::Fe;
use crate::program::{is_bracket, is_opcode, LB, RB};
use vstd::prelude::*;

verus! {

/// One step of the machine: the registers before the step ran.
#[derive(Clone, Copy, Debug, PartialEq, Eq)]
pub struct ProcessTableRow {
    pub clk: u64,
    pub ip: usize,
    pub ci: u8,
    pub ni: u8,
    pub mp: usize,
    pub mv: Fe,
    pub mvi: Fe,
}

#[derive(Clone, Copy, Debug, PartialEq, Eq)]
pub struct MemoryTableRow {
    pub clk: u64,
    pub mp: usize,
    pub mv: Fe,
}

#[derive(Clone, Copy, Debug, PartialEq, Eq)]
pub struct InstructionTableRow {
    pub ip: usize,
    pub ci: u8,
    pub ni: u8,
}

#[derive(Clone, Copy, Debug, PartialEq, Eq)]
pub struct InputTableRow {
    pub clk: u64,
    pub value: Fe,
}

#[derive(Clone, Copy, Debug, PartialEq, Eq)]
pub struct OutputTableRow {
    pub clk: u64,
    pub value: Fe,
}

#[derive(Clone, Debug, PartialEq, Eq)]
pub struct Tables {
    pub processor_table: Vec<ProcessTableRow>,
    pub memory_table: Vec<MemoryTableRow>,
    pub instruction_table: Vec<InstructionTableRow>,
    pub input_table: Vec<InputTableRow>,
    pub output_table: Vec<OutputTableRow>,
}

/// A Processor row as numbers.
pub struct ProcRow {
    pub clk: nat,
    pub ip: nat,
    pub ci: u8,
    pub ni: u8,
    pub mp: nat,
    pub mv: nat,
    pub mvi: nat,
}

pub struct MemRow {
    pub clk: nat,
    pub mp: nat,
    pub mv: nat,
}

pub struct InstrRow {
    pub ip: nat,
    pub ci: u8,
    pub ni: u8,
}

/// An Input or Output row as numbers.
pub struct IoRow {
    pub clk: nat,
    pub value: nat,
}

pub struct TablesView {
    pub processor: Seq<ProcRow>,
    pub memory: Seq<MemRow>,
    pub instruction: Seq<InstrRow>,
    pub input: Seq<IoRow>,
    pub output: Seq<IoRow>,
}

impl View for ProcessTableRow {
    type V = ProcRow;

    open spec fn view(&self) -> ProcRow {
        ProcRow {
            clk: self.clk as nat,
            ip: self.ip as nat,
            ci: self.ci,
            ni: self.ni,
            mp: self.mp as nat,
            mv: self.mv@,
            mvi: self.mvi@,
        }
    }
}

impl View for MemoryTableRow {
    type V = MemRow;

    open spec fn view(&self) -> MemRow {
        MemRow { clk: self.clk as nat, mp: self.mp as nat, mv: self.mv@ }
    }
}

impl View for InstructionTableRow {
    type V = InstrRow;

    open spec fn view(&self) -> InstrRow {
        InstrRow { ip: self.ip as nat, ci: self.ci, ni: self.ni }
    }
}

impl View for InputTableRow {
    type V = IoRow;

    open spec fn view(&self) -> IoRow {
        IoRow { clk: self.clk as nat, value: self.value@ }
    }
}

impl View for OutputTableRow {
    type V = IoRow;

    open spec fn view(&self) -> IoRow {
        IoRow { clk: self.clk as nat, value: self.value@ }
    }
}

pub open spec fn rows_view<T: View>(v: Seq<T>) -> Seq<T::V> {
    v.map_values(|r: T| r@)
}

impl View for Tables {
    type V = TablesView;

    open spec fn view(&self) -> TablesView {
        TablesView {
            processor: rows_view(self.processor_table@),
            memory: rows_view(self.memory_table@),
            instruction: rows_view(self.instruction_table@),
            input: rows_view(self.input_table@),
            output: rows_view(self.output_table@),
        }
    }
}

/// The `(clk, mp, mv)` projection of a Processor row.
pub open spec fn memory_part(r: ProcRow) -> MemRow {
    MemRow { clk: r.clk, mp: r.mp, mv: r.mv }
}

/// The `(ip, ci, ni)` projection of a Processor row.
pub open spec fn instruction_part(r: ProcRow) -> InstrRow {
    InstrRow { ip: r.ip, ci: r.ci, ni: r.ni }
}

/// The items of `s` whose key is `v`, in their order in `s`.
pub open spec fn select<T>(s: Seq<T>, key: spec_fn(T) -> nat, v: nat) -> Seq<T>
    decreases s.len(),
{
    if s.len() == 0 {
        Seq::empty()
    } else {
        let r = select(s.drop_last(), key, v);
        if key(s.last()) == v {
            r.push(s.last())
        } else {
            r
        }
    }
}

/// The items of `s` with keys below `hi`, ordered by key, and by their
/// order in `s` among equal keys.
pub open spec fn buckets<T>(s: Seq<T>, key: spec_fn(T) -> nat, hi: nat) -> Seq<T>
    decreases hi,
{
    if hi == 0 {
        Seq::empty()
    } else {
        buckets(s, key, (hi - 1) as nat) + select(s, key, (hi - 1) as nat)
    }
}

/// One more than the largest key in `s`.
pub open spec fn key_bound<T>(s: Seq<T>, key: spec_fn(T) -> nat) -> nat
    decreases s.len(),
{
    if s.len() == 0 {
        0
    } else {
        let b = key_bound(s.drop_last(), key);
        if key(s.last()) + 1 > b {
            key(s.last()) + 1
        } else {
            b
        }
    }
}

/// `s` stably sorted by `key`.
pub open spec fn sorted_by_key<T>(s: Seq<T>, key: spec_fn(T) -> nat) -> Seq<T> {
    buckets(s, key, key_bound(s, key))
}

pub open spec fn mp_key() -> spec_fn(MemRow) -> nat {
    |r: MemRow| r.mp
}

pub open spec fn ip_key() -> spec_fn(InstrRow) -> nat {
    |r: InstrRow| r.ip
}

/// The Memory table of a Processor table: its `(clk, mp, mv)` rows ordered
/// by `mp`, and by `clk` within one `mp`.
pub open spec fn memory_of(processor: Seq<ProcRow>) -> Seq<MemRow> {
    sorted_by_key(processor.map_values(|r: ProcRow| memory_part(r)), mp_key())
}

/// The byte after position `i` of the program, and 0 past its end.
pub open spec fn next_byte(p: Seq<u8>, i: int) -> u8 {
    if i + 1 < p.len() {
        p[i + 1]
    } else {
        0
    }
}

/// Where the instruction after the one at `i` starts: a bracket is followed
/// by its target byte, which is stepped over.
pub open spec fn next_instruction(p: Seq<u8>, i: int) -> int {
    if is_bracket(p[i]) {
        i + 2
    } else {
        i + 1
    }
}

/// One row `(i, p[i], p[i+1])` for each instruction of the program from
/// position `i` on, read one instruction at a time, so that no target byte
/// gets a row.
pub open spec fn static_from(p: Seq<u8>, i: int) -> Seq<InstrRow>
    decreases p.len() - i,
{
    if i < 0 || i >= p.len() {
        Seq::empty()
    } else {
        let j = next_instruction(p, i);
        let rest = if j < p.len() {
            static_from(p, j)
        } else {
            Seq::empty()
        };
        if is_opcode(p[i]) {
            seq![InstrRow { ip: i as nat, ci: p[i], ni: next_byte(p, i) }] + rest
        } else {
            rest
        }
    }
}

/// The program's static rows, one for each of its instructions.
pub open spec fn static_rows(p: Seq<u8>) -> Seq<InstrRow> {
    static_from(p, 0)
}

/// The Instruction table: the `(ip, ci, ni)` rows of the Processor table
/// followed by the program's static rows, stably ordered by `ip`.
pub open spec fn instruction_of(processor: Seq<ProcRow>, p: Seq<u8>) -> Seq<InstrRow> {
    sorted_by_key(
        processor.map_values(|r: ProcRow| instruction_part(r)) + static_rows(p),
        ip_key(),
    )
}

/// The items of `s` with keys below `hi`, in their order in `s`.
spec fn below<T>(s: Seq<T>, key: spec_fn(T) -> nat, hi: nat) -> Seq<T>
    decreases s.len(),
{
    if s.len() == 0 {
        Seq::empty()
    } else {
        let r = below(s.drop_last(), key, hi);
        if key(s.last()) < hi {
            r.push(s.last())
        } else {
            r
        }
    }
}

proof fn lemma_below_step<T>(s: Seq<T>, key: spec_fn(T) -> nat, hi: nat)
    ensures
        below(s, key, hi + 1).to_multiset() == below(s, key, hi).to_multiset().add(
            select(s, key, hi).to_multiset(),
        ),
    decreases s.len(),
{
    broadcast use vstd::seq_lib::group_to_multiset_ensures;
    broadcast use vstd::multiset::group_multiset_axioms;

    if s.len() > 0 {
        let t = s.drop_last();
        let x = s.last();
        lemma_below_step(t, key, hi);
        vstd::seq_lib::to_multiset_build(below(t, key, hi + 1), x);
        vstd::seq_lib::to_multiset_build(below(t, key, hi), x);
        vstd::seq_lib::to_multiset_build(select(t, key, hi), x);
        assert(below(s, key, hi + 1).to_multiset() =~= below(s, key, hi).to_multiset().add(
            select(s, key, hi).to_multiset(),
        ));
    }
}

proof fn lemma_buckets_below<T>(s: Seq<T>, key: spec_fn(T) -> nat, hi: nat)
    ensures
        buckets(s, key, hi).to_multiset() == below(s, key, hi).to_multiset(),
    decreases hi,
{
    if hi == 0 {
        lemma_below_zero(s, key);
    } else {
        let h = (hi - 1) as nat;
        lemma_buckets_below(s, key, h);
        vstd::seq_lib::lemma_multiset_commutative(buckets(s, key, h), select(s, key, h));
        lemma_below_step(s, key, h);
    }
}

proof fn lemma_below_zero<T>(s: Seq<T>, key: spec_fn(T) -> nat)
    ensures
        below(s, key, 0) == Seq::<T>::empty(),
    decreases s.len(),
{
    if s.len() > 0 {
        lemma_below_zero(s.drop_last(), key);
    }
}

proof fn lemma_below_all<T>(s: Seq<T>, key: spec_fn(T) -> nat)
    ensures
        below(s, key, key_bound(s, key)) == s,
    decreases s.len(),
{
    if s.len() > 0 {
        let t = s.drop_last();
        lemma_below_all(t, key);
        lemma_below_monotone(t, key, key_bound(t, key), key_bound(s, key));
        assert(t.push(s.last()) =~= s);
    }
}

proof fn lemma_below_monotone<T>(s: Seq<T>, key: spec_fn(T) -> nat, lo: nat, hi: nat)
    requires
        key_bound(s, key) <= lo <= hi,
    ensures
        below(s, key, lo) == below(s, key, hi),
    decreases s.len(),
{
    if s.len() > 0 {
        lemma_below_monotone(s.drop_last(), key, lo, hi);
    }
}

/// Sorting by key keeps every item, as many times as it occurs.
pub proof fn lemma_sorted_by_key_permutes<T>(s: Seq<T>, key: spec_fn(T) -> nat)
    ensures
        sorted_by_key(s, key).to_multiset() == s.to_multiset(),
{
    lemma_buckets_below(s, key, key_bound(s, key));
    lemma_below_all(s, key);
}

/// `ord` strictly increases along `s`.
pub open spec fn strictly_increasing<T>(s: Seq<T>, ord: spec_fn(T) -> nat) -> bool {
    forall|a: int, b: int| 0 <= a < b < s.len() ==> ord(#[trigger] s[a]) < ord(#[trigger] s[b])
}

/// `s` is ordered by `key`, and by `ord` among equal keys, without ties.
pub open spec fn ordered_by<T>(s: Seq<T>, key: spec_fn(T) -> nat, ord: spec_fn(T) -> nat) -> bool {
    forall|a: int, b: int|
        0 <= a < b < s.len() ==> key(#[trigger] s[a]) < key(#[trigger] s[b]) || (key(s[a]) == key(
            s[b],
        ) && ord(s[a]) < ord(s[b]))
}

proof fn lemma_select_ordered<T>(s: Seq<T>, key: spec_fn(T) -> nat, ord: spec_fn(T) -> nat, v: nat)
    requires
        strictly_increasing(s, ord),
    ensures
        strictly_increasing(select(s, key, v), ord),
        forall|k: int|
            0 <= k < select(s, key, v).len() ==> key(#[trigger] select(s, key, v)[k]) == v,
        forall|k: int|
            0 <= k < select(s, key, v).len() ==> exists|j: int|
                0 <= j < s.len() && s[j] == #[trigger] select(s, key, v)[k],
    decreases s.len(),
{
    if s.len() > 0 {
        let t = s.drop_last();
        assert(strictly_increasing(t, ord)) by {
            assert forall|a: int, b: int| 0 <= a < b < t.len() implies ord(#[trigger] t[a]) < ord(
                #[trigger] t[b],
            ) by {
                assert(t[a] == s[a] && t[b] == s[b]);
            }
        }
        lemma_select_ordered(t, key, ord, v);
        let r = select(t, key, v);
        let sel = select(s, key, v);
        assert forall|k: int| 0 <= k < sel.len() implies exists|j: int|
            0 <= j < s.len() && s[j] == #[trigger] sel[k] by {
            if k < r.len() {
                let j = choose|j: int| 0 <= j < t.len() && t[j] == #[trigger] r[k];
                assert(s[j] == sel[k]);
            } else {
                assert(s[s.len() - 1] == sel[k]);
            }
        }
        assert forall|k: int| 0 <= k < sel.len() implies key(#[trigger] sel[k]) == v by {
            if k < r.len() {
                assert(sel[k] == r[k]);
            }
        }
        assert forall|a: int, b: int| 0 <= a < b < sel.len() implies ord(#[trigger] sel[a]) < ord(
            #[trigger] sel[b],
        ) by {
            assert(sel[a] == r[a]);
            let ja = choose|j: int| 0 <= j < t.len() && t[j] == #[trigger] r[a];
            assert(s[ja] == sel[a]);
            if b < r.len() {
                assert(sel[b] == r[b]);
            } else {
                assert(sel[b] == s[s.len() - 1]);
            }
        }
    }
}

proof fn lemma_buckets_ordered<T>(
    s: Seq<T>,
    key: spec_fn(T) -> nat,
    ord: spec_fn(T) -> nat,
    hi: nat,
)
    requires
        strictly_increasing(s, ord),
    ensures
        ordered_by(buckets(s, key, hi), key, ord),
        forall|k: int| 0 <= k < buckets(s, key, hi).len() ==> key(#[trigger] buckets(s, key, hi)[k]) < hi,
    decreases hi,
{
    if hi > 0 {
        let h = (hi - 1) as nat;
        lemma_buckets_ordered(s, key, ord, h);
        lemma_select_ordered(s, key, ord, h);
        let left = buckets(s, key, h);
        let right = select(s, key, h);
        let all = buckets(s, key, hi);
        assert(all == left + right);
        assert forall|k: int| 0 <= k < all.len() implies key(#[trigger] all[k]) < hi by {
            if k < left.len() {
                assert(all[k] == left[k]);
            } else {
                assert(all[k] == right[k - left.len()]);
            }
        }
        assert forall|a: int, b: int| 0 <= a < b < all.len() implies key(#[trigger] all[a]) < key(
            #[trigger] all[b],
        ) || (key(all[a]) == key(all[b]) && ord(all[a]) < ord(all[b])) by {
            if b < left.len() {
                assert(all[a] == left[a] && all[b] == left[b]);
            } else if a < left.len() {
                assert(all[a] == left[a] && all[b] == right[b - left.len()]);
            } else {
                assert(all[a] == right[a - left.len()] && all[b] == right[b - left.len()]);
            }
        }
    }
}

/// Sorting by key orders the items by key, and by their order in `s`
/// among equal keys.
pub proof fn lemma_sorted_by_key_orders<T>(s: Seq<T>, key: spec_fn(T) -> nat, ord: spec_fn(T) -> nat)
    requires
        strictly_increasing(s, ord),
    ensures
        ordered_by(sorted_by_key(s, key), key, ord),
{
    lemma_buckets_ordered(s, key, ord, key_bound(s, key));
}

/// Rows that sort by a key read from their view.
pub trait SortKey: View + Sized + Copy {
    spec fn key_of(v: Self::V) -> nat;

    fn sort_key(&self) -> (r: usize)
        ensures
            r as nat == Self::key_of(self@),
    ;
}

/// The key of `T` as a function on views.
pub open spec fn key_fn<T: SortKey>() -> spec_fn(T::V) -> nat {
    |v: T::V| T::key_of(v)
}

impl SortKey for MemoryTableRow {
    open spec fn key_of(v: MemRow) -> nat {
        v.mp
    }

    fn sort_key(&self) -> (r: usize) {
        self.mp
    }
}

impl SortKey for InstructionTableRow {
    open spec fn key_of(v: InstrRow) -> nat {
        v.ip
    }

    fn sort_key(&self) -> (r: usize) {
        self.ip
    }
}

/// Where the items of key `v` start in `buckets(s, key, hi)` for `hi > v`.
pub open spec fn bucket_start<T>(s: Seq<T>, key: spec_fn(T) -> nat, v: nat) -> nat {
    buckets(s, key, v).len()
}

proof fn lemma_key_below_bound<T>(s: Seq<T>, key: spec_fn(T) -> nat)
    ensures
        forall|k: int| 0 <= k < s.len() ==> key(#[trigger] s[k]) < key_bound(s, key),
    decreases s.len(),
{
    if s.len() > 0 {
        let t = s.drop_last();
        lemma_key_below_bound(t, key);
        assert forall|k: int| 0 <= k < s.len() implies key(#[trigger] s[k]) < key_bound(s, key) by {
            if k < t.len() {
                assert(s[k] == t[k]);
            }
        }
    }
}

proof fn lemma_select_prefix<T>(s: Seq<T>, key: spec_fn(T) -> nat, v: nat, j: int)
    requires
        0 <= j <= s.len(),
    ensures
        select(s.take(j), key, v).len() <= select(s, key, v).len(),
        select(s.take(j), key, v).len() <= j,
    decreases s.len() - j,
{
    lemma_select_short(s.take(j), key, v);
    if j < s.len() {
        lemma_select_prefix(s, key, v, j + 1);
        assert(s.take(j + 1).drop_last() =~= s.take(j));
    } else {
        assert(s.take(j) =~= s);
        lemma_select_short(s, key, v);
    }
}

proof fn lemma_select_short<T>(s: Seq<T>, key: spec_fn(T) -> nat, v: nat)
    ensures
        select(s, key, v).len() <= s.len(),
    decreases s.len(),
{
    if s.len() > 0 {
        lemma_select_short(s.drop_last(), key, v);
    }
}

proof fn lemma_start_monotone<T>(s: Seq<T>, key: spec_fn(T) -> nat, a: nat, b: nat)
    requires
        a <= b,
    ensures
        bucket_start(s, key, a) <= bucket_start(s, key, b),
    decreases b - a,
{
    if a < b {
        lemma_start_monotone(s, key, a, (b - 1) as nat);
    }
}

proof fn lemma_buckets_index<T>(s: Seq<T>, key: spec_fn(T) -> nat, hi: nat, v: nat, i: int)
    requires
        v < hi,
        0 <= i < select(s, key, v).len(),
    ensures
        buckets(s, key, hi)[bucket_start(s, key, v) + i] == select(s, key, v)[i],
    decreases hi,
{
    let h = (hi - 1) as nat;
    if v < h {
        lemma_buckets_index(s, key, h, v, i);
        lemma_start_monotone(s, key, v + 1, h);
        assert(bucket_start(s, key, v + 1) == bucket_start(s, key, v) + select(s, key, v).len());
    }
}

proof fn lemma_buckets_cover<T>(s: Seq<T>, key: spec_fn(T) -> nat, hi: nat, q: int) -> (r: (
    nat,
    int,
))
    requires
        0 <= q < buckets(s, key, hi).len(),
    ensures
        r.0 < hi,
        0 <= r.1 < select(s, key, r.0).len(),
        q == bucket_start(s, key, r.0) + r.1,
    decreases hi,
{
    let h = (hi - 1) as nat;
    if q < buckets(s, key, h).len() {
        lemma_buckets_cover(s, key, h, q)
    } else {
        (h, q - bucket_start(s, key, h))
    }
}

/// Stably sorts `rows` by their key: counts the rows of each key, and
/// places each row after those of smaller keys and the earlier rows of its
/// own key.
fn sort_rows<T: SortKey>(rows: &Vec<T>) -> (r: Vec<T>)
    requires
        forall|k: int| 0 <= k < rows@.len() ==> #[trigger] T::key_of(rows@[k]@) < usize::MAX,
    ensures
        rows_view(r@) == sorted_by_key(rows_view(rows@), key_fn::<T>()),
{
    let ghost s = rows_view(rows@);
    let ghost key = key_fn::<T>();
    let n = rows.len();
    let mut bound: usize = 0;
    let mut k: usize = 0;
    while k < n
        invariant
            k <= n,
            n == rows@.len(),
            s == rows_view(rows@),
            key == key_fn::<T>(),
            bound as nat == key_bound(s.take(k as int), key),
            forall|k: int| 0 <= k < rows@.len() ==> #[trigger] T::key_of(rows@[k]@) < usize::MAX,
        decreases n - k,
    {
        proof {
            assert(s.take(k as int + 1).drop_last() =~= s.take(k as int));
        }
        let v = rows[k].sort_key();
        if v >= bound {
            bound = v + 1;
        }
        k = k + 1;
    }
    proof {
        assert(s.take(k as int) =~= s);
        lemma_key_below_bound(s, key);
        lemma_buckets_below(s, key, bound as nat);
        lemma_below_all(s, key);
        vstd::seq_lib::to_multiset_len(buckets(s, key, bound as nat));
        vstd::seq_lib::to_multiset_len(s);
    }
    let mut counts: Vec<usize> = Vec::new();
    let mut m: usize = 0;
    while m < bound
        invariant
            m <= bound,
            counts@.len() == m,
            forall|w: int| 0 <= w < m ==> #[trigger] counts@[w] == 0,
        decreases bound - m,
    {
        counts.push(0);
        m = m + 1;
    }
    let mut j: usize = 0;
    while j < n
        invariant
            j <= n,
            n == rows@.len(),
            s == rows_view(rows@),
            key == key_fn::<T>(),
            bound as nat == key_bound(s, key),
            counts@.len() == bound,
            forall|k: int| 0 <= k < s.len() ==> key(#[trigger] s[k]) < bound,
            forall|w: int|
                0 <= w < bound ==> #[trigger] counts@[w] == select(
                    s.take(j as int),
                    key,
                    w as nat,
                ).len(),
        decreases n - j,
    {
        let v = rows[j].sort_key();
        proof {
            assert(s[j as int] == rows@[j as int]@);
            assert(s.take(j as int + 1).drop_last() =~= s.take(j as int));
            assert(s.take(j as int + 1).last() == s[j as int]);
            lemma_select_prefix(s, key, v as nat, j as int);
        }
        let c = counts[v];
        counts.set(v, c + 1);
        j = j + 1;
    }
    proof {
        assert(s.take(j as int) =~= s);
    }
    let mut pos: Vec<usize> = Vec::new();
    let mut total: usize = 0;
    let mut w: usize = 0;
    while w < bound
        invariant
            w <= bound,
            n == rows@.len(),
            s == rows_view(rows@),
            n == buckets(s, key, bound as nat).len(),
            counts@.len() == bound,
            forall|u: int| 0 <= u < bound ==> #[trigger] counts@[u] == select(s, key, u as nat).len(),
            pos@.len() == w,
            total == bucket_start(s, key, w as nat),
            forall|u: int| 0 <= u < w ==> #[trigger] pos@[u] == bucket_start(s, key, u as nat),
        decreases bound - w,
    {
        proof {
            lemma_start_monotone(s, key, (w + 1) as nat, bound as nat);
        }
        pos.push(total);
        total = total + counts[w];
        w = w + 1;
    }
    let mut out: Vec<T> = Vec::new();
    let mut q: usize = 0;
    while q < n
        invariant
            q <= n,
            n == rows@.len(),
            out@.len() == q,
        decreases n - q,
    {
        out.push(rows[0]);
        q = q + 1;
    }
    let mut j: usize = 0;
    while j < n
        invariant
            j <= n,
            n == rows@.len(),
            s == rows_view(rows@),
            key == key_fn::<T>(),
            n == buckets(s, key, bound as nat).len(),
            out@.len() == n,
            pos@.len() == bound,
            forall|k: int| 0 <= k < s.len() ==> key(#[trigger] s[k]) < bound,
            forall|u: int|
                0 <= u < bound ==> #[trigger] pos@[u] == bucket_start(s, key, u as nat) + select(
                    s.take(j as int),
                    key,
                    u as nat,
                ).len(),
            forall|u: int, i: int|
                0 <= u < bound && 0 <= i < select(s.take(j as int), key, u as nat).len()
                    ==> #[trigger] out@[bucket_start(s, key, u as nat) + i]@ == select(
                    s.take(j as int),
                    key,
                    u as nat,
                )[i],
        decreases n - j,
    {
        let v = rows[j].sort_key();
        let ghost sj = s.take(j as int);
        let ghost sj1 = s.take(j as int + 1);
        proof {
            assert(s[j as int] == rows@[j as int]@);
            assert(sj1.drop_last() =~= sj);
            assert(sj1.last() == s[j as int]);
            lemma_select_prefix(s, key, v as nat, j as int + 1);
            lemma_start_monotone(s, key, (v + 1) as nat, bound as nat);
            assert(select(sj1, key, v as nat) == select(sj, key, v as nat).push(s[j as int]));
        }
        let p = pos[v];
        let ghost out0 = out@;
        out.set(p, rows[j]);
        pos.set(v, p + 1);
        proof {
            assert forall|u: int, i: int|
                0 <= u < bound && 0 <= i < select(sj1, key, u as nat).len()
                    implies #[trigger] out@[bucket_start(s, key, u as nat) + i]@ == select(
                    sj1,
                    key,
                    u as nat,
                )[i] by {
                let x = bucket_start(s, key, u as nat) + i;
                lemma_start_monotone(s, key, (u + 1) as nat, bound as nat);
                lemma_select_prefix(s, key, u as nat, j as int + 1);
                assert(bucket_start(s, key, (u + 1) as nat) == bucket_start(s, key, u as nat)
                    + select(s, key, u as nat).len());
                assert(x < n);
                if u == v {
                    if i < select(sj, key, u as nat).len() {
                        assert(out0[x]@ == select(sj, key, u as nat)[i]);
                    }
                } else {
                    assert(select(sj1, key, u as nat) == select(sj, key, u as nat));
                    assert(out0[x]@ == select(sj, key, u as nat)[i]);
                    lemma_select_prefix(s, key, u as nat, j as int);
                    if u < v {
                        lemma_start_monotone(s, key, (u + 1) as nat, v as nat);
                    } else {
                        lemma_start_monotone(s, key, (v + 1) as nat, u as nat);
                    }
                    assert(bucket_start(s, key, (u + 1) as nat) == bucket_start(s, key, u as nat)
                        + select(s, key, u as nat).len());
                    assert(bucket_start(s, key, (v + 1) as nat) == bucket_start(s, key, v as nat)
                        + select(s, key, v as nat).len());
                }
            }
            assert forall|u: int| 0 <= u < bound implies #[trigger] pos@[u] == bucket_start(
                s,
                key,
                u as nat,
            ) + select(sj1, key, u as nat).len() by {
                if u != v {
                    assert(select(sj1, key, u as nat) == select(sj, key, u as nat));
                }
            }
        }
        j = j + 1;
    }
    proof {
        assert(s.take(j as int) =~= s);
        let b = buckets(s, key, bound as nat);
        assert forall|q: int| 0 <= q < n implies out@[q]@ == b[q] by {
            let (u, i) = lemma_buckets_cover(s, key, bound as nat, q);
            let ui = u as int;
            assert(select(s.take(j as int), key, ui as nat) == select(s, key, u));
            assert(out@[bucket_start(s, key, ui as nat) + i]@ == select(
                s.take(j as int),
                key,
                ui as nat,
            )[i]);
            lemma_buckets_index(s, key, bound as nat, u, i);
        }
        assert(rows_view(out@) =~= b);
    }
    out
}

/// The Memory table of a Processor table.
pub fn memory_table_of(processor: &Vec<ProcessTableRow>) -> (r: Vec<MemoryTableRow>)
    requires
        forall|k: int| 0 <= k < processor@.len() ==> #[trigger] processor@[k].mp < usize::MAX,
    ensures
        rows_view(r@) == memory_of(rows_view(processor@)),
{
    let mut rows: Vec<MemoryTableRow> = Vec::new();
    let mut k: usize = 0;
    while k < processor.len()
        invariant
            k <= processor@.len(),
            forall|k: int| 0 <= k < processor@.len() ==> #[trigger] processor@[k].mp < usize::MAX,
            forall|j: int| 0 <= j < rows@.len() ==> #[trigger] rows@[j].mp < usize::MAX,
            rows_view(rows@) == rows_view(processor@).take(k as int).map_values(
                |r: ProcRow| memory_part(r),
            ),
        decreases processor@.len() - k,
    {
        let row = processor[k];
        let ghost before = rows@;
        rows.push(MemoryTableRow { clk: row.clk, mp: row.mp, mv: row.mv });
        proof {
            let pv = rows_view(processor@);
            assert(pv.take(k as int + 1).map_values(|r: ProcRow| memory_part(r)) =~= pv.take(
                k as int,
            ).map_values(|r: ProcRow| memory_part(r)).push(memory_part(pv[k as int])));
            assert(rows_view(rows@) =~= rows_view(before).push(rows@.last()@));
        }
        k = k + 1;
    }
    proof {
        assert(rows_view(processor@).take(k as int) =~= rows_view(processor@));
    }
    proof {
        assert(mp_key() == key_fn::<MemoryTableRow>());
    }
    sort_rows(&rows)
}

/// The Instruction table of a Processor table and the program it ran.
pub fn instruction_table_of(processor: &Vec<ProcessTableRow>, program: &Vec<u8>) -> (r: Vec<
    InstructionTableRow,
>)
    requires
        forall|k: int| 0 <= k < processor@.len() ==> #[trigger] processor@[k].ip < usize::MAX,
        program@.len() + 2 < usize::MAX,
    ensures
        rows_view(r@) == instruction_of(rows_view(processor@), program@),
{
    let ghost proj = rows_view(processor@).map_values(|r: ProcRow| instruction_part(r));
    let mut rows: Vec<InstructionTableRow> = Vec::new();
    let mut k: usize = 0;
    while k < processor.len()
        invariant
            k <= processor@.len(),
            proj == rows_view(processor@).map_values(|r: ProcRow| instruction_part(r)),
            rows_view(rows@) == proj.take(k as int),
            forall|k: int| 0 <= k < processor@.len() ==> #[trigger] processor@[k].ip < usize::MAX,
            forall|j: int| 0 <= j < rows@.len() ==> #[trigger] rows@[j].ip < usize::MAX,
        decreases processor@.len() - k,
    {
        let row = processor[k];
        let ghost before = rows@;
        rows.push(InstructionTableRow { ip: row.ip, ci: row.ci, ni: row.ni });
        proof {
            assert(rows_view(rows@) =~= rows_view(before).push(rows@.last()@));
            assert(proj.take(k as int + 1) =~= proj.take(k as int).push(proj[k as int]));
        }
        k = k + 1;
    }
    proof {
        assert(proj.take(k as int) =~= proj);
    }
    let n = program.len();
    let mut i: usize = 0;
    proof {
        assert(rows_view(rows@) + static_from(program@, 0) =~= proj + static_rows(program@));
    }
    while i < n
        invariant
            i <= n + 1,
            n == program@.len(),
            n + 2 < usize::MAX,
            rows_view(rows@) + static_from(program@, i as int) == proj + static_rows(program@),
            forall|j: int| 0 <= j < rows@.len() ==> #[trigger] rows@[j].ip < usize::MAX,
        decreases n + 1 - i,
    {
        let value = program[i];
        let ghost before = rows@;
        let next = if value == LB || value == RB {
            i + 2
        } else {
            i + 1
        };
        if crate::program::is_insturction(value) {
            let ni = if i + 1 < n {
                program[i + 1]
            } else {
                0
            };
            rows.push(InstructionTableRow { ip: i, ci: value, ni });
            proof {
                let row = InstrRow { ip: i as nat, ci: value, ni: ni };
                assert(rows_view(rows@) =~= rows_view(before).push(row));
                assert(static_from(program@, i as int) == seq![row] + static_from(
                    program@,
                    next as int,
                ));
                assert(rows_view(rows@) + static_from(program@, next as int) =~= rows_view(before)
                    + static_from(program@, i as int));
            }
        }
        i = next;
    }
    proof {
        assert(static_from(program@, i as int) =~= Seq::<InstrRow>::empty());
        assert(rows_view(rows@) + static_from(program@, i as int) =~= rows_view(rows@));
    }
    proof {
        assert(ip_key() == key_fn::<InstructionTableRow>());
    }
    sort_rows(&rows)
}

} // verus!
