use vstd::prelude::*;
use crate::config::str_eq;
use crate::packer::{flat, pack_costs, pack_spec, partitions};
use crate::prompt::{
    block_text,
    build_eval_prompt,
    clean_answer,
    clean_answer_text,
    eval_prompt_text,
    render_block,
};
use crate::retry::{after_attempt, pause_after, RetryStep};
use crate::tokens::{estimate_tokens, token_estimate};

verus! {

/// The number of grading metrics: the length of every score vector.
pub const METRIC_COUNT: usize = 10;

/// One variant of a subject as read from the inputs: its key, the
/// paraphrased instruction and the candidate answer.
pub struct VariantInput {
    pub key: String,
    pub instruction: String,
    pub answer: String,
}

/// One subject: its id, whether any answer data was found for it, and its
/// variants.
pub struct SubjectInput {
    pub id: u64,
    pub has_answers: bool,
    pub variants: Vec<VariantInput>,
}

/// The scores obtained for one variant.
pub struct ScoreRecord {
    pub subject_id: u64,
    pub key: String,
    pub scores: Vec<u8>,
}

impl View for ScoreRecord {
    type V = (u64, Seq<char>, Seq<u8>);

    open spec fn view(&self) -> (u64, Seq<char>, Seq<u8>) {
        (self.subject_id, self.key@, self.scores@)
    }
}

/// Why a variant, or a whole subject, ended without scores.
#[derive(PartialEq, Eq, Structural, Clone, Copy, Debug)]
pub enum IssueKind {
    /// The variant's block alone exceeds the token budget.
    Oversized,
    /// The variant has an empty answer.
    NoAnswer,
    /// No answer data was found for the subject.
    NoAnswerData,
    /// Every attempt of the variant's chunk failed.
    CallsFailed,
    /// The response of a successful call held no valid scores for the variant.
    MissingFromResponse,
}

/// A terminal failure: the subject, the variant key if it concerns one
/// variant, and the reason.
pub struct Issue {
    pub subject_id: u64,
    pub key: Option<String>,
    pub kind: IssueKind,
}

/// Where one variant stands.
pub enum Status {
    Pending,
    Scored(Vec<u8>),
    Failed(IssueKind),
}

/// Why a run cannot start.
#[derive(PartialEq, Eq, Structural, Clone, Copy, Debug)]
pub enum RunError {
    /// The configuration allows no attempt per chunk.
    NoAttempts,
}

/// The settings of a run.
#[derive(Clone, Copy)]
pub struct RunConfig {
    /// Token budget of one call.
    pub budget: usize,
    /// Largest number of variants in one chunk; zero for no bound.
    pub max_per_chunk: usize,
    /// Attempts per chunk.
    pub max_attempts: u32,
    /// Base of the exponential backoff, in milliseconds.
    pub base_delay_ms: u64,
    /// Pause after a chunk that succeeded on its first attempt.
    pub delay_ms: u64,
    /// Ceiling on the calls of the whole run.
    pub quota: u64,
}

/// A chunk to send: the subject, the variant keys, the prompt, and the number
/// of attempts it may use.
pub struct ChunkRequest {
    pub subject_id: u64,
    pub keys: Vec<String>,
    pub prompt: String,
    pub attempt_budget: u32,
}

/// What to do after an attempt has been recorded.
pub enum AttemptStep {
    /// No chunk was in flight; nothing changed.
    Idle,
    /// The chunk succeeded; pause this long before the next call.
    Done { attempts: u32, pause_ms: u64 },
    /// The attempt failed; pause this long, then attempt the chunk again.
    RetryAfter { delay_ms: u64 },
    /// Every attempt failed; the chunk's variants are recorded as issues.
    GaveUp { attempts: u32 },
}

struct Slot {
    subject_id: u64,
    key: String,
    instruction: String,
    answer: String,
}

struct Active {
    slots: Vec<usize>,
    attempts: u32,
    budget: u32,
}

/// A resumable, budget-bounded scoring run over a list of subjects.
pub struct Run {
    slots: Vec<Slot>,
    status: Vec<Status>,
    subject_issues: Vec<u64>,
    carried: Vec<ScoreRecord>,
    config: RunConfig,
    base_cost: usize,
    calls_made: u64,
    next_slot: usize,
    queue: Vec<Vec<usize>>,
    queue_pos: usize,
    queue_subject: u64,
    active: Option<Active>,
    stopped_early: bool,
}

/// The scores of the first record of `existing` for the given variant.
pub open spec fn find_record(existing: Seq<ScoreRecord>, id: u64, key: Seq<char>) -> Option<
    Seq<u8>,
>
    decreases existing.len(),
{
    if existing.len() == 0 {
        None
    } else if find_record(existing.drop_last(), id, key) is Some {
        find_record(existing.drop_last(), id, key)
    } else if existing.last().subject_id == id && existing.last().key@ == key {
        Some(existing.last().scores@)
    } else {
        None
    }
}

/// Whether the status is a score vector equal to `s`.
pub open spec fn scored_as(st: Status, s: Seq<u8>) -> bool {
    match st {
        Status::Scored(v) => v@ == s,
        _ => false,
    }
}

/// The variants of the subjects that have answer data, in order, as
/// (subject id, key) pairs.
pub open spec fn variants_of(subjects: Seq<SubjectInput>) -> Seq<(u64, Seq<char>)>
    decreases subjects.len(),
{
    if subjects.len() == 0 {
        Seq::empty()
    } else {
        let s = subjects.last();
        variants_of(subjects.drop_last()) + if s.has_answers {
            s.variants@.map_values(|v: VariantInput| (s.id, v.key@))
        } else {
            Seq::empty()
        }
    }
}

/// The variants of the subjects that have answer data, in order, with their
/// texts: (subject id, key, instruction, answer).
pub open spec fn entries_of(subjects: Seq<SubjectInput>) -> Seq<(u64, Seq<char>, Seq<char>, Seq<char>)>
    decreases subjects.len(),
{
    if subjects.len() == 0 {
        Seq::empty()
    } else {
        let s = subjects.last();
        entries_of(subjects.drop_last()) + if s.has_answers {
            s.variants@.map_values(|v: VariantInput| (s.id, v.key@, v.instruction@, v.answer@))
        } else {
            Seq::empty()
        }
    }
}

/// The status that planning gives a pending variant: an issue when its
/// cleaned answer is empty, an issue when the prompt's fixed part and its
/// block alone exceed the budget, still pending (to be packed) otherwise.
pub open spec fn planned_status(key: Seq<char>, instruction: Seq<char>, answer: Seq<char>, budget: int) -> Status {
    let cleaned = clean_answer_text(answer);
    if cleaned.len() == 0 {
        Status::Failed(IssueKind::NoAnswer)
    } else if preamble_cost() + token_estimate(block_text(key, instruction, cleaned)) > budget {
        Status::Failed(IssueKind::Oversized)
    } else {
        Status::Pending
    }
}

/// The ids of the subjects for which no answer data was found, in order.
pub open spec fn answerless_ids(subjects: Seq<SubjectInput>) -> Seq<u64>
    decreases subjects.len(),
{
    if subjects.len() == 0 {
        Seq::empty()
    } else {
        answerless_ids(subjects.drop_last()) + if subjects.last().has_answers {
            Seq::empty()
        } else {
            seq![subjects.last().id]
        }
    }
}

/// The records of `existing` whose variant is not among `vars`, in order.
pub open spec fn unmatched_records(existing: Seq<ScoreRecord>, vars: Seq<(u64, Seq<char>)>) -> Seq<
    (u64, Seq<char>, Seq<u8>),
>
    decreases existing.len(),
{
    if existing.len() == 0 {
        Seq::empty()
    } else {
        let r = existing.last();
        unmatched_records(existing.drop_last(), vars) + if vars.contains((r.subject_id, r.key@)) {
            Seq::empty()
        } else {
            seq![r@]
        }
    }
}

/// The position at which a subject with id `id` joins `s`: after every
/// leading subject whose id is not above `id`.
pub open spec fn insert_pos(s: Seq<SubjectInput>, id: u64) -> nat
    decreases s.len(),
{
    if s.len() == 0 {
        0
    } else if s[0].id > id {
        0
    } else {
        1 + insert_pos(s.drop_first(), id)
    }
}

/// The subjects in ascending id order; subjects with equal ids keep their
/// input order.
pub open spec fn by_id(subjects: Seq<SubjectInput>) -> Seq<SubjectInput>
    decreases subjects.len(),
{
    if subjects.len() == 0 {
        Seq::empty()
    } else {
        let r = by_id(subjects.drop_last());
        r.insert(insert_pos(r, subjects.last().id) as int, subjects.last())
    }
}

proof fn lemma_insert_pos(s: Seq<SubjectInput>, id: u64)
    ensures
        insert_pos(s, id) <= s.len(),
        forall|k: int| 0 <= k < insert_pos(s, id) ==> #[trigger] s[k].id <= id,
        insert_pos(s, id) < s.len() ==> s[insert_pos(s, id) as int].id > id,
    decreases s.len(),
{
    if s.len() > 0 && s[0].id <= id {
        lemma_insert_pos(s.drop_first(), id);
        assert forall|k: int| 0 <= k < insert_pos(s, id) implies #[trigger] s[k].id <= id by {
            if k > 0 {
                assert(s[k] == s.drop_first()[k - 1]);
            }
        }
    }
}

proof fn lemma_by_id_sorted(subjects: Seq<SubjectInput>)
    ensures
        by_id(subjects).len() == subjects.len(),
        forall|a: int, b: int| 0 <= a < b < subjects.len() ==> by_id(subjects)[a].id <= by_id(subjects)[b].id,
    decreases subjects.len(),
{
    if subjects.len() > 0 {
        let r = by_id(subjects.drop_last());
        lemma_by_id_sorted(subjects.drop_last());
        let x = subjects.last();
        let p = insert_pos(r, x.id) as int;
        lemma_insert_pos(r, x.id);
        let t = r.insert(p, x);
        assert forall|a: int, b: int| 0 <= a < b < t.len() implies t[a].id <= t[b].id by {
            if b < p {
            } else if b == p {
            } else if a < p {
                assert(t[b] == r[b - 1]);
                if b - 1 > p {
                    assert(r[p].id <= r[b - 1].id);
                }
            } else if a == p {
                assert(t[b] == r[b - 1]);
                if b - 1 > p {
                    assert(r[p].id <= r[b - 1].id);
                }
            } else {
                assert(t[a] == r[a - 1]);
                assert(t[b] == r[b - 1]);
            }
        }
    }
}

fn copy_scores(v: &Vec<u8>) -> (r: Vec<u8>)
    ensures
        r@ == v@,
{
    let mut r: Vec<u8> = Vec::new();
    for i in 0..v.len()
        invariant
            r@ == v@.take(i as int),
    {
        r.push(v[i]);
        assert(r@ =~= v@.take(i + 1));
    }
    assert(r@ =~= v@);
    r
}

fn lookup_record(existing: &Vec<ScoreRecord>, id: u64, key: &String) -> (r: Option<Vec<u8>>)
    ensures
        match r {
            Some(v) => find_record(existing@, id, key@) == Some(v@),
            None => find_record(existing@, id, key@) is None,
        },
{
    let mut i: usize = 0;
    while i < existing.len()
        invariant
            i <= existing@.len(),
            find_record(existing@.take(i as int), id, key@) is None,
        decreases existing@.len() - i,
    {
        let e = &existing[i];
        assert(existing@.take(i + 1).drop_last() =~= existing@.take(i as int));
        if e.subject_id == id && str_eq(e.key.as_str(), key.as_str()) {
            proof {
                lemma_find_record_prefix(existing@, id, key@, i + 1);
            }
            return Some(copy_scores(&e.scores));
        }
        i = i + 1;
    }
    assert(existing@.take(i as int) =~= existing@);
    None
}

proof fn lemma_find_record_prefix(s: Seq<ScoreRecord>, id: u64, key: Seq<char>, n: int)
    requires
        0 <= n <= s.len(),
        find_record(s.take(n), id, key) is Some,
    ensures
        find_record(s, id, key) == find_record(s.take(n), id, key),
    decreases s.len() - n,
{
    if n < s.len() {
        assert(s.take(n + 1).drop_last() =~= s.take(n));
        lemma_find_record_prefix(s, id, key, n + 1);
    } else {
        assert(s.take(n) =~= s);
    }
}

/// Whether position `x` occurs in some chunk.
pub open spec fn in_some_chunk(chunks: Seq<Seq<usize>>, x: usize) -> bool {
    exists|k: int, j: int| 0 <= k < chunks.len() && 0 <= j < chunks[k].len() && #[trigger] chunks[k][j] == x
}

proof fn lemma_flat_members(chunks: Seq<Seq<usize>>)
    ensures
        forall|x: usize| flat(chunks).contains(x) ==> in_some_chunk(chunks, x),
        forall|k: int, j: int|
            0 <= k < chunks.len() && 0 <= j < chunks[k].len() ==> flat(chunks).contains(
                #[trigger] chunks[k][j],
            ),
    decreases chunks.len(),
{
    if chunks.len() > 0 {
        let init = chunks.drop_last();
        let last = chunks.last();
        lemma_flat_members(init);
        let f = flat(chunks);
        assert(f == flat(init) + last);
        assert forall|x: usize| f.contains(x) implies in_some_chunk(chunks, x) by {
            let w = choose|w: int| 0 <= w < f.len() && f[w] == x;
            if w < flat(init).len() {
                assert(flat(init)[w] == x);
                assert(flat(init).contains(x));
                assert(in_some_chunk(init, x));
                let (k, j) = choose|k: int, j: int|
                    0 <= k < init.len() && 0 <= j < init[k].len() && #[trigger] init[k][j] == x;
                assert(chunks[k][j] == x);
            } else {
                let j = w - flat(init).len();
                assert(last[j] == x);
                assert(chunks[chunks.len() - 1][j] == x);
            }
        }
        assert forall|k: int, j: int|
            0 <= k < chunks.len() && 0 <= j < chunks[k].len() implies f.contains(
            #[trigger] chunks[k][j],
        ) by {
            if k < init.len() {
                assert(init[k][j] == chunks[k][j]);
                assert(flat(init).contains(init[k][j]));
                let w = choose|w: int| 0 <= w < flat(init).len() && flat(init)[w] == init[k][j];
                assert(f[w] == chunks[k][j]);
            } else {
                assert(f[flat(init).len() + j] == chunks[k][j]);
            }
        }
    }
}

/// Whether variant `i` is in some chunk of `queue`.
pub open spec fn queued(queue: Seq<Vec<usize>>, i: usize) -> bool {
    exists|k: int, j: int| 0 <= k < queue.len() && 0 <= j < queue[k]@.len() && #[trigger] queue[k]@[j] == i
}

/// The token cost of the prompt's fixed part.
pub open spec fn preamble_cost() -> nat {
    token_estimate(eval_prompt_text(Seq::empty()))
}

/// The token cost of a variant's block, with its cleaned answer.
spec fn slot_cost(sl: Slot) -> nat {
    token_estimate(block_text(sl.key@, sl.instruction@, clean_answer_text(sl.answer@)))
}

/// The summed block costs of the variants at positions `idx`.
spec fn chunk_cost(slots: Seq<Slot>, idx: Seq<usize>) -> int
    decreases idx.len(),
{
    if idx.len() == 0 {
        0
    } else {
        chunk_cost(slots, idx.drop_last()) + slot_cost(slots[idx.last() as int])
    }
}

proof fn lemma_chunk_cost_push(slots: Seq<Slot>, idx: Seq<usize>, x: usize)
    ensures
        chunk_cost(slots, idx.push(x)) == chunk_cost(slots, idx) + slot_cost(slots[x as int]),
{
    assert(idx.push(x).drop_last() =~= idx);
}

/// Plans the pending variants of the subject at positions `a..b`: those with an
/// empty answer and those too large for a chunk become issues, the rest are
/// packed into chunks of positions.
fn plan_subject(
    slots: &Vec<Slot>,
    status: &mut Vec<Status>,
    a: usize,
    b: usize,
    base_cost: usize,
    budget: usize,
    cap: usize,
) -> (queue: Vec<Vec<usize>>)
    requires
        old(status)@.len() == slots@.len(),
        a < b <= slots@.len(),
        base_cost == preamble_cost(),
    ensures
        final(status)@.len() == slots@.len(),
        forall|i: int|
            a <= i < b && old(status)@[i] is Pending ==> #[trigger] final(status)@[i] == planned_status(
                slots@[i].key@,
                slots@[i].instruction@,
                slots@[i].answer@,
                budget as int,
            ),
        forall|i: int|
            0 <= i < slots@.len() && !(a <= i < b) ==> #[trigger] final(status)@[i] == old(status)@[i],
        forall|i: int|
            0 <= i < slots@.len() && !(old(status)@[i] is Pending) ==> #[trigger] final(status)@[i] == old(status)@[i],
        forall|i: usize|
            a <= i < b && (#[trigger] final(status)@[i as int]) is Pending ==> queued(queue@, i),
        forall|k: int, j: int|
            0 <= k < queue@.len() && 0 <= j < queue@[k]@.len() ==> a <= #[trigger] queue@[k]@[j]
                < b,
        forall|k: int| 0 <= k < queue@.len() ==> base_cost + chunk_cost(slots@, (#[trigger] queue@[k])@) <= budget,
{
    let ghost st0 = status@;
    let mut kept: Vec<usize> = Vec::new();
    let mut costs: Vec<usize> = Vec::new();
    let mut i = a;
    while i < b
        invariant
            a <= i <= b <= slots@.len(),
            status@.len() == slots@.len(),
            st0.len() == slots@.len(),
            forall|x: int| 0 <= x < slots@.len() && !(a <= x < i) ==> #[trigger] status@[x] == st0[x],
            forall|x: int| 0 <= x < slots@.len() && !(st0[x] is Pending) ==> #[trigger] status@[x] == st0[x],
            base_cost == preamble_cost(),
            forall|x: int|
                a <= x < i && st0[x] is Pending ==> #[trigger] status@[x] == planned_status(
                    slots@[x].key@,
                    slots@[x].instruction@,
                    slots@[x].answer@,
                    budget as int,
                ),
            costs@.len() == kept@.len(),
            forall|p: int, q: int| 0 <= p < q < kept@.len() ==> kept@[p] < kept@[q],
            forall|p: int| 0 <= p < kept@.len() ==> a <= #[trigger] kept@[p] < i,
            forall|p: int| 0 <= p < kept@.len() ==> (#[trigger] status@[kept@[p] as int]) is Pending,
            forall|p: int| 0 <= p < costs@.len() ==> base_cost + #[trigger] costs@[p] <= budget,
            forall|p: int| 0 <= p < costs@.len() ==> #[trigger] costs@[p] == slot_cost(slots@[kept@[p] as int]),
            forall|x: usize| a <= x < i && (#[trigger] status@[x as int]) is Pending ==> kept@.contains(x),
        decreases b - i,
    {
        let ghost kept0 = kept@;
        let ghost status0 = status@;
        let pending = match &status[i] {
            Status::Pending => true,
            _ => false,
        };
        if pending {
            let slot = &slots[i];
            let answer = clean_answer(slot.answer.as_str());
            if answer.is_empty() {
                status.set(i, Status::Failed(IssueKind::NoAnswer));
            } else {
                let block = render_block(slot.key.as_str(), slot.instruction.as_str(), answer);
                let c = estimate_tokens(block.as_str());
                if base_cost <= budget && c <= budget - base_cost {
                    kept.push(i);
                    costs.push(c);
                    assert(kept@[kept@.len() - 1] == i);
                    assert(c == slot_cost(slots@[i as int]));
                } else {
                    status.set(i, Status::Failed(IssueKind::Oversized));
                }
            }
        }
        proof {
            assert forall|x: usize| a <= x < i + 1 && (#[trigger] status@[x as int]) is Pending implies kept@.contains(x) by {
                if x < i {
                    assert(status0[x as int] is Pending);
                    assert(kept0.contains(x));
                    let w = choose|w: int| 0 <= w < kept0.len() && kept0[w] == x;
                    assert(kept@[w] == x);
                } else {
                    assert(kept@[kept@.len() - 1] == i);
                }
            }
        }
        i = i + 1;
    }
    let packing = pack_costs(base_cost, &costs, budget, cap);
    // The call bounds the length of `costs`, which the packing lemmas need.
    let _n_costs = costs.len();
    proof {
        crate::packer::lemma_pack_covers(base_cost as int, costs@, budget as int, cap as int);
        crate::packer::lemma_pack_respects_budget(base_cost as int, costs@, budget as int, cap as int);
        let over = packing.oversized@;
        if over.len() > 0 {
            assert(over[0] < costs@.len());
            assert(base_cost + costs@[over[0] as int] > budget);
        }
        assert(over.len() == 0);
        lemma_flat_members(pack_spec(base_cost as int, costs@, budget as int, cap as int).0);
    }
    let ghost chunks = packing.chunks.deep_view();
    assert(chunks == pack_spec(base_cost as int, costs@, budget as int, cap as int).0);
    let mut queue: Vec<Vec<usize>> = Vec::new();
    let mut k: usize = 0;
    while k < packing.chunks.len()
        invariant
            k <= packing.chunks@.len(),
            chunks == packing.chunks.deep_view(),
            queue@.len() == k,
            partitions(flat(chunks), Seq::<usize>::empty(), kept@.len() as int),
            forall|k2: int, j: int| 0 <= k2 < chunks.len() && 0 <= j < chunks[k2].len() ==> flat(chunks).contains(#[trigger] chunks[k2][j]),
            forall|p: int| 0 <= p < kept@.len() ==> a <= #[trigger] kept@[p] < b,
            forall|k2: int| 0 <= k2 < k ==> (#[trigger] queue@[k2])@.len() == chunks[k2].len(),
            forall|k2: int, j: int|
                0 <= k2 < k && 0 <= j < chunks[k2].len() ==> #[trigger] queue@[k2]@[j] == kept@[chunks[k2][j] as int],
            forall|p: int| 0 <= p < costs@.len() ==> #[trigger] costs@[p] == slot_cost(slots@[kept@[p] as int]),
            costs@.len() == kept@.len(),
            forall|k2: int| 0 <= k2 < chunks.len() ==> #[trigger] crate::packer::chunk_ok(base_cost as int, costs@, budget as int, cap as int, chunks[k2]),
            forall|k2: int| 0 <= k2 < k ==> chunk_cost(slots@, (#[trigger] queue@[k2])@) == crate::packer::items_cost(costs@, chunks[k2]),
        decreases packing.chunks@.len() - k,
    {
        let ch = &packing.chunks[k];
        let mut mapped: Vec<usize> = Vec::new();
        let mut j: usize = 0;
        assert(ch@.take(0) =~= Seq::<usize>::empty());
        assert(ch@ == chunks[k as int]);
        while j < ch.len()
            invariant
                j <= ch@.len(),
                ch@ == chunks[k as int],
                0 <= k < chunks.len(),
                mapped@.len() == j,
                partitions(flat(chunks), Seq::<usize>::empty(), kept@.len() as int),
                forall|k2: int, j2: int| 0 <= k2 < chunks.len() && 0 <= j2 < chunks[k2].len() ==> flat(chunks).contains(#[trigger] chunks[k2][j2]),
                forall|j2: int| 0 <= j2 < j ==> mapped@[j2] == kept@[ch@[j2] as int],
                forall|p: int| 0 <= p < costs@.len() ==> #[trigger] costs@[p] == slot_cost(slots@[kept@[p] as int]),
                costs@.len() == kept@.len(),
                chunk_cost(slots@, mapped@) == crate::packer::items_cost(costs@, ch@.take(j as int)),
            decreases ch@.len() - j,
        {
            let p = ch[j];
            proof {
                assert(flat(chunks).contains(chunks[k as int][j as int]));
                let w = choose|w: int| 0 <= w < flat(chunks).len() && flat(chunks)[w] == p;
            }
            let ghost m0 = mapped@;
            mapped.push(kept[p]);
            proof {
                lemma_chunk_cost_push(slots@, m0, kept@[p as int]);
                assert(ch@.take(j + 1).drop_last() =~= ch@.take(j as int));
                assert(p < kept@.len());
            }
            j = j + 1;
        }
        assert(ch@.take(ch@.len() as int) =~= ch@);
        queue.push(mapped);
        k = k + 1;
    }
    proof {
        assert forall|x: usize| a <= x < b && (#[trigger] status@[x as int]) is Pending implies queued(queue@, x) by {
            assert(kept@.contains(x));
            let p = choose|p: int| 0 <= p < kept@.len() && kept@[p] == x;
            let pu = p as usize;
            assert(!Seq::<usize>::empty().contains(pu));
            assert(flat(chunks).contains(pu));
            assert(in_some_chunk(chunks, pu));
            let (k2, j2) = choose|k2: int, j2: int| 0 <= k2 < chunks.len() && 0 <= j2 < chunks[k2].len() && #[trigger] chunks[k2][j2] == pu;
            assert(queue@[k2]@[j2] == x);
        }
        assert forall|k2: int| 0 <= k2 < queue@.len() implies base_cost + chunk_cost(slots@, (#[trigger] queue@[k2])@) <= budget by {
            assert(crate::packer::chunk_ok(base_cost as int, costs@, budget as int, cap as int, chunks[k2]));
        }
        assert forall|k2: int, j: int|
            0 <= k2 < queue@.len() && 0 <= j < queue@[k2]@.len() implies a <= #[trigger] queue@[k2]@[j] < b by {
            assert(flat(chunks).contains(chunks[k2][j]));
            let w = choose|w: int| 0 <= w < flat(chunks).len() && flat(chunks)[w] == chunks[k2][j];
        }
    }
    queue
}

spec fn section_text(slots: Seq<Slot>, idx: Seq<usize>) -> Seq<char>
    decreases idx.len(),
{
    if idx.len() == 0 {
        Seq::empty()
    } else {
        let sl = slots[idx.last() as int];
        section_text(slots, idx.drop_last()) + block_text(
            sl.key@,
            sl.instruction@,
            clean_answer_text(sl.answer@),
        )
    }
}

impl Run {
    /// The (subject id, key) pair of each variant of the run, in order.
    pub closed spec fn variants(&self) -> Seq<(u64, Seq<char>)> {
        self.slots@.map_values(|s: Slot| (s.subject_id, s.key@))
    }

    /// Each variant of the run with its texts: (subject id, key,
    /// instruction, answer).
    pub closed spec fn entries(&self) -> Seq<(u64, Seq<char>, Seq<char>, Seq<char>)> {
        self.slots@.map_values(|s: Slot| (s.subject_id, s.key@, s.instruction@, s.answer@))
    }

    /// The position of the first variant of the subjects not yet begun.
    pub closed spec fn next_pos(&self) -> int {
        self.next_slot as int
    }

    /// Where each variant of the run stands.
    pub closed spec fn statuses(&self) -> Seq<Status> {
        self.status@
    }

    /// The calls spent so far.
    pub closed spec fn calls(&self) -> u64 {
        self.calls_made
    }

    /// The settings of the run.
    pub closed spec fn settings(&self) -> RunConfig {
        self.config
    }

    /// Whether the run stopped on its call quota.
    pub closed spec fn stopped(&self) -> bool {
        self.stopped_early
    }

    /// Whether a chunk is in flight.
    pub closed spec fn in_flight(&self) -> bool {
        self.active is Some
    }

    /// The variants of the chunk in flight, as positions; empty when none is.
    pub closed spec fn flight(&self) -> Seq<usize> {
        match self.active {
            Some(a) => a.slots@,
            None => Seq::empty(),
        }
    }

    /// The attempts made of the chunk in flight, and the number it may use.
    pub closed spec fn flight_attempts(&self) -> (u32, u32) {
        match self.active {
            Some(a) => (a.attempts, a.budget),
            None => (0, 0),
        }
    }

    /// The prompt of a chunk made of the variants at positions `idx`: the
    /// rubric, then one block per variant with its cleaned answer.
    pub closed spec fn chunk_prompt(&self, idx: Seq<usize>) -> Seq<char> {
        eval_prompt_text(section_text(self.slots@, idx))
    }

    /// The summed block costs of the chunk in flight.
    pub closed spec fn flight_cost(&self) -> int {
        chunk_cost(self.slots@, self.flight())
    }

    /// Whether every subject has been gone through without an early stop.
    pub closed spec fn finished(&self) -> bool {
        &&& !self.stopped_early
        &&& self.active is None
        &&& self.next_slot == self.slots.len()
        &&& self.queue_pos == self.queue.len()
    }

    /// Whether variant `i` waits in a chunk that is queued or in flight.
    pub closed spec fn waiting(&self, i: usize) -> bool {
        ||| exists|k: int, j: int|
            self.queue_pos <= k < self.queue.len() && 0 <= j < self.queue@[k]@.len()
                && #[trigger] self.queue@[k]@[j] == i
        ||| match self.active {
            Some(a) => a.slots@.contains(i),
            None => false,
        }
    }

    /// The invariant of a run.
    pub closed spec fn wf(&self) -> bool {
        let n = self.slots.len();
        &&& self.status.len() == n
        &&& self.next_slot <= n
        &&& self.queue_pos <= self.queue.len()
        &&& self.calls_made <= self.config.quota
        &&& self.stopped_early ==> self.calls_made >= self.config.quota
        &&& self.base_cost == preamble_cost()
        &&& self.queue.len() > 0 ==> self.next_slot > 0
        &&& self.next_slot > 0 ==> {
            &&& self.queue_subject == self.slots@[self.next_slot - 1].subject_id
            &&& forall|i: int| self.next_slot <= i < n ==> #[trigger] self.slots@[i].subject_id > self.queue_subject
        }
        &&& forall|k: int|
            0 <= k < self.queue.len() ==> self.base_cost + chunk_cost(self.slots@, (#[trigger] self.queue@[k])@)
                <= self.config.budget
        &&& self.config.max_attempts >= 1
        &&& forall|a: int, b: int|
            0 <= a < b < n ==> self.slots@[a].subject_id <= self.slots@[b].subject_id
        &&& forall|k: int, j: int|
            0 <= k < self.queue.len() && 0 <= j < self.queue@[k]@.len() ==> #[trigger] self.queue@[k]@[j]
                < n && self.slots@[self.queue@[k]@[j] as int].subject_id == self.queue_subject
        &&& forall|i: usize|
            0 <= i < self.next_slot && (#[trigger] self.status@[i as int]) is Pending
                ==> self.waiting(i)
        &&& match self.active {
            Some(a) => {
                &&& !self.stopped_early
                &&& forall|j: int|
                    0 <= j < a.slots@.len() ==> #[trigger] a.slots@[j] < n
                        && self.status@[a.slots@[j] as int] is Pending
                        && self.slots@[a.slots@[j] as int].subject_id == self.queue_subject
                &&& a.attempts < a.budget
                &&& self.calls_made + (a.budget - a.attempts) <= self.config.quota
                &&& self.base_cost + chunk_cost(self.slots@, a.slots@) <= self.config.budget
            },
            None => true,
        }
    }

    /// Sets up a run over `subjects`, taking as already scored every variant
    /// that has a record in `existing`. Records of `existing` for variants
    /// outside the run are kept and written out again.
    pub fn new(config: RunConfig, subjects: &Vec<SubjectInput>, existing: &Vec<ScoreRecord>) -> (r:
        Result<Run, RunError>)
        ensures
            config.max_attempts == 0 ==> r == Err::<Run, RunError>(RunError::NoAttempts),
            config.max_attempts > 0 ==> r is Ok,
            r matches Ok(run) ==> {
                &&& run.wf()
                &&& run.settings() == config
                &&& run.calls() == 0
                &&& !run.stopped()
                &&& !run.in_flight()
                &&& run.variants() == variants_of(by_id(subjects@))
                &&& run.entries() == entries_of(by_id(subjects@))
                &&& run.subjects_without_answers() == answerless_ids(by_id(subjects@))
                &&& run.kept_records() == unmatched_records(existing@, variants_of(by_id(subjects@)))
                &&& forall|i: int|
                    0 <= i < run.variants().len() ==> match find_record(
                        existing@,
                        run.variants()[i].0,
                        run.variants()[i].1,
                    ) {
                        Some(s) => scored_as(#[trigger] run.statuses()[i], s),
                        None => run.statuses()[i] is Pending,
                    }
            },
    {
        if config.max_attempts == 0 {
            return Err(RunError::NoAttempts);
        }
        let mut order: Vec<usize> = Vec::new();
        let mut t: usize = 0;
        while t < subjects.len()
            invariant
                t <= subjects@.len(),
                order@.len() == t,
                forall|k: int| 0 <= k < order@.len() ==> #[trigger] order@[k] < t,
                order@.map_values(|i: usize| subjects@[i as int]) == by_id(subjects@.take(t as int)),
            decreases subjects@.len() - t,
        {
            let ghost m = order@.map_values(|i: usize| subjects@[i as int]);
            let id = subjects[t].id;
            let mut p: usize = 0;
            assert(m.skip(0) =~= m);
            while p < order.len() && subjects[order[p]].id <= id
                invariant
                    p <= order@.len(),
                    m == order@.map_values(|i: usize| subjects@[i as int]),
                    forall|k: int| 0 <= k < order@.len() ==> #[trigger] order@[k] < t,
                    t < subjects@.len(),
                    insert_pos(m, id) == p + insert_pos(m.skip(p as int), id),
                decreases order@.len() - p,
            {
                assert(m.skip(p as int)[0] == m[p as int]);
                assert(m.skip(p as int).drop_first() =~= m.skip(p + 1));
                p = p + 1;
            }
            proof {
                if p < order@.len() {
                    assert(m.skip(p as int)[0] == m[p as int]);
                } else {
                    assert(m.skip(p as int).len() == 0);
                }
                assert(subjects@.take(t + 1).drop_last() =~= subjects@.take(t as int));
                assert(subjects@.take(t + 1).last() == subjects@[t as int]);
            }
            order.insert(p, t);
            proof {
                assert(order@.map_values(|i: usize| subjects@[i as int]) =~= m.insert(p as int, subjects@[t as int]));
            }
            t = t + 1;
        }
        let ghost sorted = order@.map_values(|i: usize| subjects@[i as int]);
        proof {
            assert(subjects@.take(t as int) =~= subjects@);
            lemma_by_id_sorted(subjects@);
        }
        let mut slots: Vec<Slot> = Vec::new();
        let mut status: Vec<Status> = Vec::new();
        let mut subject_issues: Vec<u64> = Vec::new();
        let mut s: usize = 0;
        while s < order.len()
            invariant
                s <= order@.len(),
                order@.len() == subjects@.len(),
                forall|k: int| 0 <= k < order@.len() ==> #[trigger] order@[k] < subjects@.len(),
                sorted == order@.map_values(|i: usize| subjects@[i as int]),
                sorted == by_id(subjects@),
                forall|a: int, b: int| 0 <= a < b < sorted.len() ==> sorted[a].id <= sorted[b].id,
                config.max_attempts >= 1,
                status@.len() == slots@.len(),
                subject_issues@ == answerless_ids(sorted.take(s as int)),
                slots@.map_values(|x: Slot| (x.subject_id, x.key@)) == variants_of(
                    sorted.take(s as int),
                ),
                slots@.map_values(|x: Slot| (x.subject_id, x.key@, x.instruction@, x.answer@))
                    == entries_of(sorted.take(s as int)),
                forall|a: int, b: int|
                    0 <= a < b < slots@.len() ==> slots@[a].subject_id <= slots@[b].subject_id,
                forall|a: int| 0 <= a < slots@.len() ==> slots@[a].subject_id <= (if s > 0 {
                    sorted[s - 1].id
                } else {
                    0
                }) || s == 0,
                slots@.len() > 0 ==> s > 0,
                forall|i: int|
                    0 <= i < slots@.len() ==> match find_record(
                        existing@,
                        slots@[i].subject_id,
                        slots@[i].key@,
                    ) {
                        Some(sc) => scored_as(#[trigger] status@[i], sc),
                        None => status@[i] is Pending,
                    },
            decreases order@.len() - s,
        {
            let subj = &subjects[order[s]];
            proof {
                assert(sorted.take(s + 1).drop_last() =~= sorted.take(s as int));
            }
            if !subj.has_answers {
                subject_issues.push(subj.id);
            }
            assert(subject_issues@ =~= answerless_ids(sorted.take(s + 1)));
            let ghost before = slots@;
            let mut j: usize = 0;
            let n_variants = if subj.has_answers {
                subj.variants.len()
            } else {
                0
            };
            while j < n_variants
                invariant
                    n_variants <= subj.variants@.len(),
                    j <= n_variants,
                    subj.has_answers ==> n_variants == subj.variants@.len(),
                    !subj.has_answers ==> n_variants == 0,
                    s < sorted.len(),
                    subj == sorted[s as int],
                    j <= subj.variants@.len(),
                    status@.len() == slots@.len(),
                    slots@.len() == before.len() + j,
                    slots@.take(before.len() as int) == before,
                    slots@.map_values(|x: Slot| (x.subject_id, x.key@)) == before.map_values(
                        |x: Slot| (x.subject_id, x.key@),
                    ) + subj.variants@.take(j as int).map_values(
                        |v: VariantInput| (subj.id, v.key@),
                    ),
                    slots@.map_values(|x: Slot| (x.subject_id, x.key@, x.instruction@, x.answer@))
                        == before.map_values(
                        |x: Slot| (x.subject_id, x.key@, x.instruction@, x.answer@),
                    ) + subj.variants@.take(j as int).map_values(
                        |v: VariantInput| (subj.id, v.key@, v.instruction@, v.answer@),
                    ),
                    forall|t: int| before.len() <= t < slots@.len() ==> slots@[t].subject_id == subj.id,
                    forall|i: int|
                        0 <= i < slots@.len() ==> match find_record(
                            existing@,
                            slots@[i].subject_id,
                            slots@[i].key@,
                        ) {
                            Some(sc) => scored_as(#[trigger] status@[i], sc),
                            None => status@[i] is Pending,
                        },
                decreases subj.variants@.len() - j,
            {
                let v = &subj.variants[j];
                let ghost old_slots = slots@;
                let key = v.key.clone();
                let found = lookup_record(existing, subj.id, &key);
                match found {
                    Some(sc) => status.push(Status::Scored(sc)),
                    None => status.push(Status::Pending),
                }
                slots.push(
                    Slot {
                        subject_id: subj.id,
                        key,
                        instruction: v.instruction.clone(),
                        answer: v.answer.clone(),
                    },
                );
                assert(slots@.take(before.len() as int) =~= before);
                assert(slots@.map_values(|x: Slot| (x.subject_id, x.key@)) =~= old_slots.map_values(
                    |x: Slot| (x.subject_id, x.key@),
                ).push((subj.id, subj.variants@[j as int].key@)));
                assert(subj.variants@.take(j + 1).map_values(|v: VariantInput| (subj.id, v.key@))
                    =~= subj.variants@.take(j as int).map_values(
                    |v: VariantInput| (subj.id, v.key@),
                ).push((subj.id, subj.variants@[j as int].key@)));
                assert(slots@.map_values(|x: Slot| (x.subject_id, x.key@, x.instruction@, x.answer@))
                    =~= old_slots.map_values(
                    |x: Slot| (x.subject_id, x.key@, x.instruction@, x.answer@),
                ).push((subj.id, v.key@, v.instruction@, v.answer@)));
                assert(subj.variants@.take(j + 1).map_values(
                    |v: VariantInput| (subj.id, v.key@, v.instruction@, v.answer@),
                ) =~= subj.variants@.take(j as int).map_values(
                    |v: VariantInput| (subj.id, v.key@, v.instruction@, v.answer@),
                ).push((subj.id, v.key@, v.instruction@, v.answer@)));
                j = j + 1;
            }
            proof {
                let st = sorted.take(s + 1);
                assert(st.drop_last() =~= sorted.take(s as int));
                assert(subj.variants@.take(subj.variants@.len() as int) =~= subj.variants@);
                assert(subj.variants@.take(0) =~= Seq::<VariantInput>::empty());
                assert(st.last() == sorted[s as int]);
                let added2 = if subj.has_answers {
                    subj.variants@.map_values(|v: VariantInput| (subj.id, v.key@))
                } else {
                    Seq::empty()
                };
                let added4 = if subj.has_answers {
                    subj.variants@.map_values(|v: VariantInput| (subj.id, v.key@, v.instruction@, v.answer@))
                } else {
                    Seq::empty()
                };
                assert(subj.variants@.take(j as int).map_values(|v: VariantInput| (subj.id, v.key@)) =~= added2);
                assert(subj.variants@.take(j as int).map_values(
                    |v: VariantInput| (subj.id, v.key@, v.instruction@, v.answer@),
                ) =~= added4);
                assert(variants_of(st) == variants_of(sorted.take(s as int)) + added2);
                assert(entries_of(st) == entries_of(sorted.take(s as int)) + added4);
                assert forall|i: int| 0 <= i < before.len() implies slots@[i] == before[i] by {
                    assert(slots@.take(before.len() as int)[i] == slots@[i]);
                }
                assert forall|a: int, b: int|
                    0 <= a < b < slots@.len() implies slots@[a].subject_id
                    <= slots@[b].subject_id by {
                    if b < before.len() {
                        assert(slots@.take(before.len() as int)[a] == slots@[a]);
                        assert(slots@.take(before.len() as int)[b] == slots@[b]);
                    } else if a < before.len() {
                        assert(slots@.take(before.len() as int)[a] == slots@[a]);
                        assert(sorted[s - 1].id <= sorted[s as int].id);
                    }
                }
                assert forall|a: int| 0 <= a < slots@.len() implies slots@[a].subject_id
                    <= sorted[s as int].id by {
                    if a < before.len() {
                        assert(slots@.take(before.len() as int)[a] == slots@[a]);
                        assert(sorted[s - 1].id <= sorted[s as int].id);
                    }
                }
            }
            s = s + 1;
        }
        assert(sorted.take(s as int) =~= sorted);
        let empty = String::new();
        let preamble = build_eval_prompt(empty.as_str());
        let base_cost = estimate_tokens(preamble.as_str());
        let ghost vars = slots@.map_values(|x: Slot| (x.subject_id, x.key@));
        let mut carried: Vec<ScoreRecord> = Vec::new();
        let mut e: usize = 0;
        assert(existing@.take(0) =~= Seq::<ScoreRecord>::empty());
        while e < existing.len()
            invariant
                e <= existing@.len(),
                vars == slots@.map_values(|x: Slot| (x.subject_id, x.key@)),
                record_views(carried@) == unmatched_records(existing@.take(e as int), vars),
            decreases existing@.len() - e,
        {
            let rec = &existing[e];
            let mut known = false;
            let mut t: usize = 0;
            while t < slots.len()
                invariant
                    t <= slots@.len(),
                    vars == slots@.map_values(|x: Slot| (x.subject_id, x.key@)),
                    known == exists|w: int| 0 <= w < t && #[trigger] vars[w] == (rec.subject_id, rec.key@),
                decreases slots@.len() - t,
            {
                if slots[t].subject_id == rec.subject_id && str_eq(
                    slots[t].key.as_str(),
                    rec.key.as_str(),
                ) {
                    known = true;
                    assert(vars[t as int] == (rec.subject_id, rec.key@));
                }
                t = t + 1;
            }
            proof {
                assert(existing@.take(e + 1).drop_last() =~= existing@.take(e as int));
                assert(existing@.take(e + 1).last() == *rec);
                if vars.contains((rec.subject_id, rec.key@)) {
                    let w = choose|w: int| 0 <= w < vars.len() && vars[w] == (rec.subject_id, rec.key@);
                    assert(known);
                }
            }
            if !known {
                let ghost c0 = carried@;
                carried.push(
                    ScoreRecord {
                        subject_id: rec.subject_id,
                        key: rec.key.clone(),
                        scores: copy_scores(&rec.scores),
                    },
                );
                assert(record_views(carried@) =~= record_views(c0).push(rec@));
                assert(record_views(carried@) =~= unmatched_records(existing@.take(e + 1), vars));
            } else {
                assert(unmatched_records(existing@.take(e + 1), vars) =~= unmatched_records(existing@.take(e as int), vars));
            }
            e = e + 1;
        }
        assert(existing@.take(e as int) =~= existing@);
        let run = Run {
            slots,
            status,
            subject_issues,
            carried,
            config,
            base_cost,
            calls_made: 0,
            next_slot: 0,
            queue: Vec::new(),
            queue_pos: 0,
            queue_subject: 0,
            active: None,
            stopped_early: false,
        };
        Ok(run)
    }
}

/// The end of the run of variants that share the subject of position `a`.
fn subject_end(slots: &Vec<Slot>, a: usize) -> (b: usize)
    requires
        a < slots@.len(),
    ensures
        a < b <= slots@.len(),
        forall|i: int| a <= i < b ==> #[trigger] slots@[i].subject_id == slots@[a as int].subject_id,
        b < slots@.len() ==> slots@[b as int].subject_id != slots@[a as int].subject_id,
{
    // The call bounds the number of slots, so that `b` cannot overflow.
    let _n_slots = slots.len();
    let id = slots[a].subject_id;
    let mut b = a + 1;
    while b < slots.len() && slots[b].subject_id == id
        invariant
            a < b <= slots@.len(),
            id == slots@[a as int].subject_id,
            forall|i: int| a <= i < b ==> #[trigger] slots@[i].subject_id == id,
        decreases slots@.len() - b,
    {
        b = b + 1;
    }
    b
}

/// Whether some variant at a position in `a..b` is pending.
fn any_pending(status: &Vec<Status>, a: usize, b: usize) -> (r: bool)
    requires
        a <= b <= status@.len(),
    ensures
        r == exists|i: int| a <= i < b && (#[trigger] status@[i]) is Pending,
{
    let mut i = a;
    while i < b
        invariant
            a <= i <= b <= status@.len(),
            forall|x: int| a <= x < i ==> !((#[trigger] status@[x]) is Pending),
        decreases b - i,
    {
        match &status[i] {
            Status::Pending => {
                return true;
            },
            _ => {},
        }
        i = i + 1;
    }
    false
}

/// The positions of `chunk` whose variants are still pending, in order.
fn still_pending(slots: &Vec<Slot>, status: &Vec<Status>, chunk: &Vec<usize>) -> (r: Vec<usize>)
    requires
        forall|j: int| 0 <= j < chunk@.len() ==> #[trigger] chunk@[j] < status@.len(),
    ensures
        chunk_cost(slots@, r@) <= chunk_cost(slots@, chunk@),
        forall|j: int| 0 <= j < r@.len() ==> (#[trigger] status@[r@[j] as int]) is Pending && chunk@.contains(r@[j]),
        forall|j: int| 0 <= j < chunk@.len() && (#[trigger] status@[chunk@[j] as int]) is Pending ==> r@.contains(chunk@[j]),
{
    let mut r: Vec<usize> = Vec::new();
    let mut j: usize = 0;
    assert(chunk@.take(0) =~= Seq::<usize>::empty());
    while j < chunk.len()
        invariant
            j <= chunk@.len(),
            forall|t: int| 0 <= t < chunk@.len() ==> #[trigger] chunk@[t] < status@.len(),
            forall|t: int| 0 <= t < r@.len() ==> (#[trigger] status@[r@[t] as int]) is Pending && chunk@.contains(r@[t]),
            forall|t: int| 0 <= t < j && (#[trigger] status@[chunk@[t] as int]) is Pending ==> r@.contains(chunk@[t]),
            chunk_cost(slots@, r@) <= chunk_cost(slots@, chunk@.take(j as int)),
        decreases chunk@.len() - j,
    {
        let x = chunk[j];
        let ghost r0 = r@;
        proof {
            assert(chunk@.take(j + 1).drop_last() =~= chunk@.take(j as int));
            assert(chunk@.take(j + 1).last() == x);
        }
        match &status[x] {
            Status::Pending => {
                r.push(x);
                proof {
                    lemma_chunk_cost_push(slots@, r0, x);
                    assert(r@[r@.len() - 1] == x);
                    assert forall|t: int| 0 <= t < j + 1 && (#[trigger] status@[chunk@[t] as int]) is Pending implies r@.contains(chunk@[t]) by {
                        if t < j {
                            let w = choose|w: int| 0 <= w < r0.len() && r0[w] == chunk@[t];
                            assert(r@[w] == chunk@[t]);
                        }
                    }
                }
            },
            _ => {},
        }
        j = j + 1;
    }
    assert(chunk@.take(chunk@.len() as int) =~= chunk@);
    r
}

impl Run {
    /// Moves the run on to its next chunk and hands it out, or returns `None`
    /// when there is none: every subject has been gone through, or the call
    /// quota is spent (an early stop), or a chunk is already in flight.
    /// Subjects are taken in id order, and a subject is finished before a
    /// later one is begun; a subject with nothing pending costs nothing. A
    /// subject is only begun, and a chunk only handed out, while calls are
    /// left. Beginning a subject settles each of its pending variants as
    /// `planned_status` says: an empty cleaned answer or a block too large
    /// for the budget becomes an issue; no other status changes. Each
    /// handed-out chunk holds pending variants of one subject, fits the
    /// budget, and may use as many attempts as the settings allow and the
    /// quota still has.
    #[verifier::loop_isolation(false)]
    #[verifier::rlimit(100)]
    pub fn next_chunk(&mut self) -> (r: Option<ChunkRequest>)
        requires
            old(self).wf(),
        ensures
            final(self).wf(),
            final(self).variants() == old(self).variants(),
            final(self).settings() == old(self).settings(),
            final(self).calls() == old(self).calls(),
            final(self).statuses().len() == old(self).statuses().len(),
            forall|i: int|
                0 <= i < old(self).statuses().len() && !(old(self).statuses()[i] is Pending)
                    ==> #[trigger] final(self).statuses()[i] == old(self).statuses()[i],
            final(self).entries() == old(self).entries(),
            final(self).kept_records() == old(self).kept_records(),
            final(self).subjects_without_answers() == old(self).subjects_without_answers(),
            final(self).next_pos() >= old(self).next_pos(),
            forall|i: int|
                0 <= i < old(self).statuses().len() ==> #[trigger] final(self).statuses()[i] == if old(
                    self,
                ).next_pos() <= i < final(self).next_pos() && old(self).statuses()[i] is Pending {
                    planned_status(
                        old(self).entries()[i].1,
                        old(self).entries()[i].2,
                        old(self).entries()[i].3,
                        old(self).settings().budget as int,
                    )
                } else {
                    old(self).statuses()[i]
                },
            old(self).in_flight() ==> r is None && *final(self) == *old(self),
            final(self).stopped() ==> final(self).calls() >= final(self).settings().quota,
            final(self).stopped() ==> final(self).statuses() == old(self).statuses(),
            !old(self).in_flight() ==> (r is Some <==> final(self).in_flight()),
            !old(self).in_flight() && r is None ==> final(self).finished() || final(self).stopped(),
            r matches Some(req) ==> forall|i: int|
                0 <= i < old(self).variants().len() && old(self).variants()[i].0 < req.subject_id
                    ==> !(#[trigger] final(self).statuses()[i] is Pending),
            r matches Some(req) ==> {
                &&& !old(self).in_flight()
                &&& final(self).in_flight()
                &&& old(self).calls() < old(self).settings().quota
                &&& req.attempt_budget as int == if old(self).settings().max_attempts as int
                    <= old(self).settings().quota - old(self).calls() {
                    old(self).settings().max_attempts as int
                } else {
                    old(self).settings().quota - old(self).calls()
                }
                &&& final(self).flight_attempts() == (0u32, req.attempt_budget)
                &&& final(self).flight().len() == req.keys@.len() > 0
                &&& forall|j: int|
                    0 <= j < req.keys@.len() ==> {
                        let i = #[trigger] final(self).flight()[j] as int;
                        &&& 0 <= i < old(self).variants().len()
                        &&& old(self).variants()[i] == (req.subject_id, req.keys@[j]@)
                        &&& old(self).statuses()[i] is Pending
                    }
                &&& req.prompt@ == final(self).chunk_prompt(final(self).flight())
                &&& preamble_cost() + final(self).flight_cost() <= final(self).settings().budget
            },
    {
        if self.active.is_some() {
            return None;
        }
        let ghost st_old = self.status@;
        loop
            invariant
                self.wf(),
                self.active is None,
                !old(self).in_flight(),
                self.slots == old(self).slots,
                self.config == old(self).config,
                self.calls_made == old(self).calls_made,
                st_old == old(self).status@,
                self.status@.len() == st_old.len(),
                forall|i: int|
                    0 <= i < st_old.len() && !(st_old[i] is Pending) ==> #[trigger] self.status@[i] == st_old[i],
                self.carried == old(self).carried,
                self.subject_issues == old(self).subject_issues,
                self.next_slot >= old(self).next_slot,
                forall|i: int|
                    0 <= i < st_old.len() ==> #[trigger] self.status@[i] == if old(self).next_slot <= i
                        < self.next_slot && st_old[i] is Pending {
                        planned_status(
                            self.slots@[i].key@,
                            self.slots@[i].instruction@,
                            self.slots@[i].answer@,
                            self.config.budget as int,
                        )
                    } else {
                        st_old[i]
                    },
                self.calls_made >= self.config.quota ==> self.status@ == st_old,
            decreases self.slots@.len() - self.next_slot, self.queue@.len() - self.queue_pos,
        {
            if self.stopped_early {
                return None;
            }
            if self.queue_pos < self.queue.len() {
                if self.calls_made >= self.config.quota {
                    self.stopped_early = true;
                    return None;
                }
                let qp = self.queue_pos;
                let chunk = still_pending(&self.slots, &self.status, &self.queue[qp]);
                self.queue_pos = qp + 1;
                proof {
                    assert forall|t: int| 0 <= t < chunk@.len() implies #[trigger] chunk@[t] < self.slots@.len()
                        && self.slots@[chunk@[t] as int].subject_id == self.queue_subject
                        && self.status@[chunk@[t] as int] is Pending by {
                        assert(self.queue@[qp as int]@.contains(chunk@[t]));
                        let w = choose|w: int| 0 <= w < self.queue@[qp as int]@.len() && self.queue@[qp as int]@[w] == chunk@[t];
                        assert(self.queue@[qp as int]@[w] < self.slots@.len());
                    }
                    assert forall|i: usize|
                        0 <= i < self.next_slot && (#[trigger] self.status@[i as int]) is Pending implies self.waiting(i) || chunk@.contains(i) by {
                        let k = choose|k: int, j: int|
                            qp <= k < self.queue@.len() && 0 <= j < self.queue@[k]@.len()
                                && #[trigger] self.queue@[k]@[j] == i;
                        let (k, j) = k;
                        if k == qp {
                            assert(self.queue@[qp as int]@[j] == i);
                        }
                    }
                }
                if chunk.len() == 0 {
                    proof {
                        assert forall|i: usize|
                            0 <= i < self.next_slot && (#[trigger] self.status@[i as int]) is Pending implies self.waiting(i) by {
                            assert(!chunk@.contains(i));
                        }
                    }
                    continue;
                }
                let mut keys: Vec<String> = Vec::new();
                let mut section = String::new();
                let mut j: usize = 0;
                while j < chunk.len()
                    invariant
                        j <= chunk@.len(),
                        keys@.len() == j,
                        forall|t: int| 0 <= t < chunk@.len() ==> #[trigger] chunk@[t] < self.slots@.len(),
                        forall|t: int| 0 <= t < j ==> (#[trigger] keys@[t])@ == self.slots@[chunk@[t] as int].key@,
                        section@ == section_text(self.slots@, chunk@.take(j as int)),
                    decreases chunk@.len() - j,
                {
                    let slot = &self.slots[chunk[j]];
                    keys.push(slot.key.clone());
                    let answer = clean_answer(slot.answer.as_str());
                    let block = render_block(slot.key.as_str(), slot.instruction.as_str(), answer);
                    section.append(block.as_str());
                    proof {
                        let tk = chunk@.take(j + 1);
                        assert(tk.drop_last() =~= chunk@.take(j as int));
                    }
                    j = j + 1;
                }
                assert(chunk@.take(chunk@.len() as int) =~= chunk@);
                let prompt = build_eval_prompt(section.as_str());
                let left = self.config.quota - self.calls_made;
                let budget: u32 = if (self.config.max_attempts as u64) <= left {
                    self.config.max_attempts
                } else {
                    left as u32
                };
                let subject_id = self.queue_subject;
                let ghost pre = *self;
                let ghost cv = chunk@;
                self.active = Some(Active { slots: chunk, attempts: 0, budget });
                proof {
                    assert forall|i: usize|
                        0 <= i < self.next_slot && (#[trigger] self.status@[i as int]) is Pending implies self.waiting(i) by {
                        assert(pre.status@[i as int] is Pending);
                        assert(pre.waiting(i) || cv.contains(i));
                        if !cv.contains(i) {
                            let (k, j) = choose|k: int, j: int|
                                pre.queue_pos <= k < pre.queue.len() && 0 <= j < pre.queue@[k]@.len()
                                    && #[trigger] pre.queue@[k]@[j] == i;
                            assert(self.queue@[k]@[j] == i);
                        }
                    }
                }
                return Some(ChunkRequest { subject_id, keys, prompt, attempt_budget: budget });
            }
            if self.next_slot >= self.slots.len() {
                return None;
            }
            let a = self.next_slot;
            proof {
                assert forall|i: int| 0 <= i < a implies !(#[trigger] self.status@[i] is Pending) by {
                    if self.status@[i] is Pending {
                        assert(self.waiting(i as usize));
                    }
                }
            }
            let b = subject_end(&self.slots, a);
            if !any_pending(&self.status, a, b) {
                self.queue = Vec::new();
                self.queue_pos = 0;
                self.queue_subject = self.slots[a].subject_id;
                self.next_slot = b;
                proof {
                    assert forall|i: int| b <= i < self.slots@.len() implies #[trigger] self.slots@[i].subject_id
                        > self.queue_subject by {
                        assert(self.slots@[b as int].subject_id != self.slots@[a as int].subject_id);
                        assert(self.slots@[a as int].subject_id <= self.slots@[b as int].subject_id);
                        if i > b {
                            assert(self.slots@[b as int].subject_id <= self.slots@[i].subject_id);
                        }
                    }
                    assert(self.slots@[b - 1].subject_id == self.slots@[a as int].subject_id);
                }
                continue;
            }
            if self.calls_made >= self.config.quota {
                self.stopped_early = true;
                return None;
            }
            let ghost st_mid = self.status@;
            let q = plan_subject(
                &self.slots,
                &mut self.status,
                a,
                b,
                self.base_cost,
                self.config.budget,
                self.config.max_per_chunk,
            );
            self.queue = q;
            self.queue_pos = 0;
            self.queue_subject = self.slots[a].subject_id;
            self.next_slot = b;
            proof {
                assert forall|i: usize|
                    0 <= i < self.next_slot && (#[trigger] self.status@[i as int]) is Pending implies self.waiting(i) by {
                    assert(queued(self.queue@, i));
                }
                assert forall|i: int| b <= i < self.slots@.len() implies #[trigger] self.slots@[i].subject_id
                    > self.queue_subject by {
                    assert(self.slots@[b as int].subject_id != self.slots@[a as int].subject_id);
                    assert(self.slots@[a as int].subject_id <= self.slots@[b as int].subject_id);
                    if i > b {
                        assert(self.slots@[b as int].subject_id <= self.slots@[i].subject_id);
                    }
                }
                assert(self.slots@[b - 1].subject_id == self.slots@[a as int].subject_id);
                assert forall|i: int| 0 <= i < st_old.len() implies #[trigger] self.status@[i] == if old(self).next_slot <= i
                    < self.next_slot && st_old[i] is Pending {
                    planned_status(
                        self.slots@[i].key@,
                        self.slots@[i].instruction@,
                        self.slots@[i].answer@,
                        self.config.budget as int,
                    )
                } else {
                    st_old[i]
                } by {
                    if a <= i < b {
                        assert(st_mid[i] == st_old[i]);
                    } else {
                        assert(self.status@[i] == st_mid[i]);
                    }
                }
            }
        }
    }
}

/// The scores that a response gives for `key`: those of the first entry with
/// that key, when they are `METRIC_COUNT` long; `None` when no entry has the
/// key or the first such entry has the wrong length.
pub open spec fn response_scores(resp: Seq<(String, Vec<u8>)>, key: Seq<char>) -> Option<Seq<u8>>
    decreases resp.len(),
{
    if resp.len() == 0 {
        None
    } else if resp[0].0@ == key {
        if resp[0].1@.len() == METRIC_COUNT {
            Some(resp[0].1@)
        } else {
            None
        }
    } else {
        response_scores(resp.drop_first(), key)
    }
}

/// Where a variant of a successful chunk ends: scored with what the response
/// gives for it, or an issue when the response gives nothing valid.
pub open spec fn merged_as(st: Status, found: Option<Seq<u8>>) -> bool {
    match found {
        Some(sc) => scored_as(st, sc),
        None => st matches Status::Failed(k) && k == IssueKind::MissingFromResponse,
    }
}

/// Whether the status is a failure of the given kind.
pub open spec fn failed_as(st: Status, kind: IssueKind) -> bool {
    st matches Status::Failed(k) && k == kind
}

fn find_scores(resp: &Vec<(String, Vec<u8>)>, key: &String) -> (r: Option<Vec<u8>>)
    ensures
        match r {
            Some(v) => response_scores(resp@, key@) == Some(v@),
            None => response_scores(resp@, key@) is None,
        },
{
    let mut i: usize = 0;
    assert(resp@.skip(0) =~= resp@);
    while i < resp.len()
        invariant
            i <= resp@.len(),
            response_scores(resp@, key@) == response_scores(resp@.skip(i as int), key@),
        decreases resp@.len() - i,
    {
        let entry = &resp[i];
        assert(resp@.skip(i as int)[0] == resp@[i as int]);
        if str_eq(entry.0.as_str(), key.as_str()) {
            if entry.1.len() == METRIC_COUNT {
                return Some(copy_scores(&entry.1));
            } else {
                return None;
            }
        }
        assert(resp@.skip(i as int).drop_first() =~= resp@.skip(i + 1));
        i = i + 1;
    }
    None
}

impl Run {
    /// Records the outcome of one attempt of the chunk in flight: its
    /// response on success (score vectors by variant key), `None` on failure.
    /// Every attempt costs one call. On success each variant of the chunk
    /// takes the scores that the response gives for it, or an issue when it
    /// gives none, and the run pauses only after a first-attempt success. On
    /// failure the chunk is attempted again after an exponential backoff
    /// (with `jitter_ms` added) while attempts are left, else each of its
    /// variants becomes an issue. Without a chunk in flight nothing changes.
    pub fn record_attempt(&mut self, response: Option<Vec<(String, Vec<u8>)>>, jitter_ms: u64) -> (r:
        AttemptStep)
        requires
            old(self).wf(),
        ensures
            final(self).wf(),
            final(self).variants() == old(self).variants(),
            final(self).settings() == old(self).settings(),
            final(self).stopped() == old(self).stopped(),
            final(self).entries() == old(self).entries(),
            final(self).kept_records() == old(self).kept_records(),
            final(self).subjects_without_answers() == old(self).subjects_without_answers(),
            final(self).next_pos() == old(self).next_pos(),
            final(self).statuses().len() == old(self).statuses().len(),
            forall|i: int|
                0 <= i < old(self).statuses().len() && !(old(self).statuses()[i] is Pending)
                    ==> #[trigger] final(self).statuses()[i] == old(self).statuses()[i],
            !old(self).in_flight() ==> r is Idle && *final(self) == *old(self),
            old(self).in_flight() ==> {
                let fl = old(self).flight();
                let n = (old(self).flight_attempts().0 + 1) as u32;
                let budget = old(self).flight_attempts().1;
                let cfg = old(self).settings();
                &&& final(self).calls() == old(self).calls() + 1
                &&& forall|i: int|
                    0 <= i < old(self).statuses().len() && !fl.contains(i as usize)
                        ==> #[trigger] final(self).statuses()[i] == old(self).statuses()[i]
                &&& match response {
                    Some(resp) => {
                        &&& r == AttemptStep::Done {
                            attempts: n,
                            pause_ms: if n == 1 {
                                cfg.delay_ms
                            } else {
                                0
                            },
                        }
                        &&& !final(self).in_flight()
                        &&& forall|j: int|
                            0 <= j < fl.len() ==> merged_as(
                                final(self).statuses()[#[trigger] fl[j] as int],
                                response_scores(resp@, old(self).variants()[fl[j] as int].1),
                            )
                    },
                    None => if n < budget {
                        &&& r == AttemptStep::RetryAfter {
                            delay_ms: crate::retry::backoff_spec(
                                cfg.base_delay_ms as nat,
                                n as nat,
                                jitter_ms as nat,
                            ),
                        }
                        &&& final(self).in_flight()
                        &&& final(self).flight() == fl
                        &&& final(self).flight_attempts() == (n, budget)
                        &&& final(self).statuses() == old(self).statuses()
                    } else {
                        &&& r == AttemptStep::GaveUp { attempts: n }
                        &&& !final(self).in_flight()
                        &&& forall|j: int|
                            0 <= j < fl.len() ==> failed_as(
                                final(self).statuses()[#[trigger] fl[j] as int],
                                IssueKind::CallsFailed,
                            )
                    },
                }
            },
    {
        let ghost s0 = *self;
        let act = match self.active.take() {
            None => {
                return AttemptStep::Idle;
            },
            Some(a) => a,
        };
        let ghost st0 = self.status@;
        let fl = act.slots;
        let attempts = act.attempts + 1;
        self.calls_made = self.calls_made + 1;
        let succeeded = response.is_some();
        let step = after_attempt(act.budget, self.config.base_delay_ms, attempts, succeeded, jitter_ms);
        match step {
            RetryStep::RetryAfter { attempts: _, delay_ms } => {
                self.active = Some(Active { slots: fl, attempts, budget: act.budget });
                proof {
                    assert forall|i: usize|
                        0 <= i < self.next_slot && (#[trigger] self.status@[i as int]) is Pending implies self.waiting(i) by {
                        assert(s0.waiting(i));
                        if !fl@.contains(i) {
                            let (k, j) = choose|k: int, j: int|
                                s0.queue_pos <= k < s0.queue.len() && 0 <= j < s0.queue@[k]@.len()
                                    && #[trigger] s0.queue@[k]@[j] == i;
                            assert(self.queue@[k]@[j] == i);
                        }
                    }
                }
                return AttemptStep::RetryAfter { delay_ms };
            },
            _ => {},
        }
        let mut j: usize = 0;
        while j < fl.len()
            invariant
                self.status@.len() == st0.len(),
                self.slots@.len() == st0.len(),
                st0 == s0.status@,
                s0.wf(),
                self.slots == s0.slots,
                self.queue == s0.queue,
                self.queue_pos == s0.queue_pos,
                self.queue_subject == s0.queue_subject,
                self.next_slot == s0.next_slot,
                self.config == s0.config,
                self.calls_made == s0.calls_made + 1,
                self.stopped_early == s0.stopped_early,
                self.subject_issues == s0.subject_issues,
                self.carried == s0.carried,
                self.base_cost == s0.base_cost,
                self.active is None,
                j <= fl@.len(),
                forall|t: int| 0 <= t < fl@.len() ==> #[trigger] fl@[t] < st0.len() && st0[fl@[t] as int] is Pending,
                forall|i: int| 0 <= i < st0.len() && !fl@.take(j as int).contains(i as usize) ==> #[trigger] self.status@[i] == st0[i],
                forall|t: int| 0 <= t < j ==> match response {
                    Some(resp) => merged_as(
                        self.status@[#[trigger] fl@[t] as int],
                        response_scores(resp@, self.slots@[fl@[t] as int].key@),
                    ),
                    None => failed_as(self.status@[#[trigger] fl@[t] as int], IssueKind::CallsFailed),
                },
            decreases fl@.len() - j,
        {
            let i = fl[j];
            let ghost before = self.status@;
            let new_status = match &response {
                Some(resp) => match find_scores(resp, &self.slots[i].key) {
                    Some(v) => Status::Scored(v),
                    None => Status::Failed(IssueKind::MissingFromResponse),
                },
                None => Status::Failed(IssueKind::CallsFailed),
            };
            self.status.set(i, new_status);
            proof {
                assert forall|x: int| 0 <= x < st0.len() && !fl@.take(j + 1).contains(x as usize) implies #[trigger] self.status@[x] == st0[x] by {
                    assert(fl@.take(j + 1)[j as int] == i);
                    if fl@.take(j as int).contains(x as usize) {
                        let w = choose|w: int| 0 <= w < j && fl@.take(j as int)[w] == x as usize;
                        assert(fl@.take(j + 1)[w] == x as usize);
                    }
                }
            }
            j = j + 1;
        }
        proof {
            assert(fl@.take(fl@.len() as int) =~= fl@);
            assert forall|i: usize|
                0 <= i < self.next_slot && (#[trigger] self.status@[i as int]) is Pending implies self.waiting(i) by {
                if fl@.contains(i) {
                    let w = choose|w: int| 0 <= w < fl@.len() && fl@[w] == i;
                    assert(!(self.status@[fl@[w] as int] is Pending));
                } else {
                    assert(!fl@.take(j as int).contains(i));
                    assert(self.status@[i as int] == st0[i as int]);
                    assert(st0 == s0.status@);
                    assert(s0.waiting(i));
                    let (k, j) = choose|k: int, j: int|
                        s0.queue_pos <= k < s0.queue.len() && 0 <= j < s0.queue@[k]@.len()
                            && #[trigger] s0.queue@[k]@[j] == i;
                    assert(self.queue@[k]@[j] == i);
                }
            }
        }
        match response {
            Some(_) => AttemptStep::Done {
                attempts,
                pause_ms: pause_after(true, attempts, self.config.delay_ms),
            },
            None => AttemptStep::GaveUp { attempts },
        }
    }
}

impl View for Issue {
    type V = (u64, Option<Seq<char>>, IssueKind);

    open spec fn view(&self) -> (u64, Option<Seq<char>>, IssueKind) {
        (
            self.subject_id,
            match self.key {
                Some(k) => Some(k@),
                None => None,
            },
            self.kind,
        )
    }
}

/// The records of the scored variants among the first `n`, in order.
pub open spec fn scored_upto(vars: Seq<(u64, Seq<char>)>, sts: Seq<Status>, n: nat) -> Seq<
    (u64, Seq<char>, Seq<u8>),
>
    decreases n,
{
    if n == 0 {
        Seq::empty()
    } else {
        let prev = scored_upto(vars, sts, (n - 1) as nat);
        match sts[n - 1] {
            Status::Scored(v) => prev.push((vars[n - 1].0, vars[n - 1].1, v@)),
            _ => prev,
        }
    }
}

/// The issues of the failed variants among the first `n`, in order.
pub open spec fn failed_upto(vars: Seq<(u64, Seq<char>)>, sts: Seq<Status>, n: nat) -> Seq<
    (u64, Option<Seq<char>>, IssueKind),
>
    decreases n,
{
    if n == 0 {
        Seq::empty()
    } else {
        let prev = failed_upto(vars, sts, (n - 1) as nat);
        match sts[n - 1] {
            Status::Failed(k) => prev.push((vars[n - 1].0, Some(vars[n - 1].1), k)),
            _ => prev,
        }
    }
}

/// The pending variants among the first `n`, in order.
pub open spec fn pending_upto(vars: Seq<(u64, Seq<char>)>, sts: Seq<Status>, n: nat) -> Seq<
    (u64, Seq<char>),
>
    decreases n,
{
    if n == 0 {
        Seq::empty()
    } else {
        let prev = pending_upto(vars, sts, (n - 1) as nat);
        match sts[n - 1] {
            Status::Pending => prev.push(vars[n - 1]),
            _ => prev,
        }
    }
}

/// Every variant is in exactly one of the three outputs: the scored records,
/// the issues, or the unprocessed list.
pub proof fn lemma_each_variant_once(vars: Seq<(u64, Seq<char>)>, sts: Seq<Status>, n: nat)
    requires
        n <= vars.len(),
        n <= sts.len(),
    ensures
        scored_upto(vars, sts, n).len() + failed_upto(vars, sts, n).len() + pending_upto(
            vars,
            sts,
            n,
        ).len() == n,
    decreases n,
{
    if n > 0 {
        lemma_each_variant_once(vars, sts, (n - 1) as nat);
    }
}

proof fn lemma_no_pending_upto(vars: Seq<(u64, Seq<char>)>, sts: Seq<Status>, n: nat)
    requires
        n <= sts.len(),
        forall|i: int| 0 <= i < n ==> !(#[trigger] sts[i] is Pending),
    ensures
        pending_upto(vars, sts, n).len() == 0,
    decreases n,
{
    if n > 0 {
        lemma_no_pending_upto(vars, sts, (n - 1) as nat);
    }
}

/// Whether the records are in nondecreasing subject order.
pub open spec fn by_subject(s: Seq<(u64, Seq<char>, Seq<u8>)>) -> bool {
    forall|a: int, b: int| 0 <= a < b < s.len() ==> s[a].0 <= s[b].0
}

pub open spec fn record_views(v: Seq<ScoreRecord>) -> Seq<(u64, Seq<char>, Seq<u8>)> {
    v.map_values(|x: ScoreRecord| x@)
}

/// Inserts `rec` after every record of a subject not above its own, so that
/// the subject order is kept.
fn insert_by_subject(v: &mut Vec<ScoreRecord>, rec: ScoreRecord)
    requires
        by_subject(record_views(old(v)@)),
    ensures
        by_subject(record_views(final(v)@)),
        record_views(final(v)@).to_multiset() == record_views(old(v)@).to_multiset().insert(rec@),
{
    broadcast use vstd::seq_lib::to_multiset_insert;

    let ghost old_v = record_views(v@);
    let mut i: usize = 0;
    while i < v.len() && v[i].subject_id <= rec.subject_id
        invariant
            i <= v@.len(),
            old_v == record_views(v@),
            forall|k: int| 0 <= k < i ==> (#[trigger] v@[k]).subject_id <= rec.subject_id,
        decreases v@.len() - i,
    {
        i = i + 1;
    }
    let ghost rv = rec@;
    v.insert(i, rec);
    proof {
        assert(record_views(v@) =~= old_v.insert(i as int, rv));
        assert forall|a: int, b: int| 0 <= a < b < record_views(v@).len() implies record_views(
            v@,
        )[a].0 <= record_views(v@)[b].0 by {
            let nv = record_views(v@);
            if b < i {
            } else if b == i {
            } else if a < i {
                assert(nv[b] == old_v[b - 1]);
                assert(old_v[i as int].0 > rv.0);
                if b - 1 > i {
                    assert(old_v[i as int].0 <= old_v[b - 1].0);
                }
            } else if a == i {
                assert(nv[b] == old_v[b - 1]);
                assert(old_v[i as int].0 > rv.0);
                if b - 1 > i {
                    assert(old_v[i as int].0 <= old_v[b - 1].0);
                }
            } else {
                assert(nv[a] == old_v[a - 1]);
                assert(nv[b] == old_v[b - 1]);
            }
        }
    }
}

proof fn lemma_scored_by_subject(vars: Seq<(u64, Seq<char>)>, sts: Seq<Status>, n: nat)
    requires
        n <= vars.len(),
        n <= sts.len(),
        forall|a: int, b: int| 0 <= a < b < vars.len() ==> vars[a].0 <= vars[b].0,
    ensures
        by_subject(scored_upto(vars, sts, n)),
        n > 0 ==> forall|k: int|
            0 <= k < scored_upto(vars, sts, n).len() ==> (#[trigger] scored_upto(vars, sts, n)[k]).0
                <= vars[n - 1].0,
    decreases n,
{
    if n > 0 {
        lemma_scored_by_subject(vars, sts, (n - 1) as nat);
        let prev = scored_upto(vars, sts, (n - 1) as nat);
        assert forall|k: int| 0 <= k < prev.len() implies (#[trigger] prev[k]).0 <= vars[n - 1].0 by {
            if n > 1 {
                assert(vars[n - 2].0 <= vars[n - 1].0);
            }
        }
        match sts[n - 1] {
            Status::Scored(v) => {
                let cur = prev.push((vars[n - 1].0, vars[n - 1].1, v@));
                assert forall|k: int| 0 <= k < cur.len() implies (#[trigger] cur[k]).0 <= vars[n - 1].0 by {
                    if k < prev.len() {
                        assert(cur[k] == prev[k]);
                    }
                }
                assert forall|a: int, b: int| 0 <= a < b < cur.len() implies cur[a].0 <= cur[b].0 by {
                    assert(cur[a] == prev[a]);
                    if b < cur.len() - 1 {
                        assert(cur[b] == prev[b]);
                    }
                }
            },
            _ => {},
        }
    }
}

impl Run {
    /// The run never spends more calls than its quota.
    pub proof fn lemma_quota_respected(&self)
        requires
            self.wf(),
        ensures
            self.calls() <= self.settings().quota,
    {
    }

    /// A run that has gone through every subject without an early stop has
    /// left no variant pending: each one has scores or an issue, and the
    /// unprocessed list is empty.
    pub proof fn lemma_finished_run_settled(&self)
        requires
            self.wf(),
            self.finished(),
        ensures
            forall|i: int| 0 <= i < self.statuses().len() ==> !(#[trigger] self.statuses()[i] is Pending),
            pending_upto(self.variants(), self.statuses(), self.variants().len()).len() == 0,
    {
        assert forall|i: int| 0 <= i < self.statuses().len() implies !(#[trigger] self.statuses()[i] is Pending) by {
            if self.status@[i] is Pending {
                assert(self.waiting(i as usize));
            }
        }
        lemma_no_pending_upto(self.variants(), self.statuses(), self.variants().len());
    }

    /// The records written out by the run.
    pub closed spec fn kept_records(&self) -> Seq<(u64, Seq<char>, Seq<u8>)> {
        self.carried@.map_values(|r: ScoreRecord| r@)
    }

    /// The subjects for which no answer data was found.
    pub closed spec fn subjects_without_answers(&self) -> Seq<u64> {
        self.subject_issues@
    }

    /// The full current result set, ordered by subject id: the scores of
    /// this run's variants and the loaded records of variants outside this
    /// run; within a subject, this run's variants come first, in order.
    pub fn checkpoint(&self) -> (r: Vec<ScoreRecord>)
        requires
            self.wf(),
        ensures
            by_subject(record_views(r@)),
            record_views(r@).to_multiset() == (scored_upto(
                self.variants(),
                self.statuses(),
                self.variants().len(),
            ) + self.kept_records()).to_multiset(),
    {
        let mut r: Vec<ScoreRecord> = Vec::new();
        let mut i: usize = 0;
        while i < self.slots.len()
            invariant
                self.wf(),
                i <= self.slots@.len(),
                record_views(r@) == scored_upto(self.variants(), self.statuses(), i as nat),
            decreases self.slots@.len() - i,
        {
            match &self.status[i] {
                Status::Scored(v) => {
                    let ghost r0 = r@;
                    r.push(
                        ScoreRecord {
                            subject_id: self.slots[i].subject_id,
                            key: self.slots[i].key.clone(),
                            scores: copy_scores(v),
                        },
                    );
                    assert(record_views(r@) =~= record_views(r0).push(
                        (self.variants()[i as int].0, self.variants()[i as int].1, v@),
                    ));
                },
                _ => {},
            }
            i = i + 1;
        }
        let ghost scored = record_views(r@);
        proof {
            assert forall|a: int, b: int|
                0 <= a < b < self.variants().len() implies self.variants()[a].0
                <= self.variants()[b].0 by {
                assert(self.slots@[a].subject_id <= self.slots@[b].subject_id);
            }
            lemma_scored_by_subject(self.variants(), self.statuses(), self.variants().len());
        }
        let mut c: usize = 0;
        while c < self.carried.len()
            invariant
                c <= self.carried@.len(),
                by_subject(record_views(r@)),
                record_views(r@).to_multiset() == (scored + self.kept_records().take(
                    c as int,
                )).to_multiset(),
            decreases self.carried@.len() - c,
        {
            let rec = &self.carried[c];
            let copy = ScoreRecord {
                subject_id: rec.subject_id,
                key: rec.key.clone(),
                scores: copy_scores(&rec.scores),
            };
            assert(copy@ == rec@);
            let ghost before = scored + self.kept_records().take(c as int);
            insert_by_subject(&mut r, copy);
            assert(self.kept_records()[c as int] == rec@);
            assert(scored + self.kept_records().take(c + 1) =~= before.push(rec@));
            proof {
                vstd::seq_lib::to_multiset_build(before, rec@);
            }
            c = c + 1;
        }
        assert(self.kept_records().take(c as int) =~= self.kept_records());
        r
    }

    /// The variants still pending: after an early stop, those never
    /// attempted.
    pub fn unprocessed(&self) -> (r: Vec<(u64, String)>)
        requires
            self.wf(),
        ensures
            r@.map_values(|p: (u64, String)| (p.0, p.1@)) == pending_upto(
                self.variants(),
                self.statuses(),
                self.variants().len(),
            ),
    {
        let mut r: Vec<(u64, String)> = Vec::new();
        let mut i: usize = 0;
        while i < self.slots.len()
            invariant
                self.wf(),
                i <= self.slots@.len(),
                r@.map_values(|p: (u64, String)| (p.0, p.1@)) == pending_upto(self.variants(), self.statuses(), i as nat),
            decreases self.slots@.len() - i,
        {
            match &self.status[i] {
                Status::Pending => {
                    let ghost r0 = r@;
                    r.push((self.slots[i].subject_id, self.slots[i].key.clone()));
                    assert(r@.map_values(|p: (u64, String)| (p.0, p.1@)) =~= r0.map_values(|p: (u64, String)| (p.0, p.1@)).push(
                        self.variants()[i as int],
                    ));
                },
                _ => {},
            }
            i = i + 1;
        }
        r
    }

    /// The issues of the run: first the subjects without answer data, then
    /// each failed variant with its reason, in variant order.
    pub fn issues(&self) -> (r: Vec<Issue>)
        requires
            self.wf(),
        ensures
            r@.map_values(|x: Issue| x@) == self.subjects_without_answers().map_values(
                |id: u64| (id, None::<Seq<char>>, IssueKind::NoAnswerData),
            ) + failed_upto(self.variants(), self.statuses(), self.variants().len()),
    {
        let mut r: Vec<Issue> = Vec::new();
        let mut c: usize = 0;
        let ghost heads = self.subjects_without_answers().map_values(
            |id: u64| (id, None::<Seq<char>>, IssueKind::NoAnswerData),
        );
        while c < self.subject_issues.len()
            invariant
                c <= self.subject_issues@.len(),
                heads == self.subjects_without_answers().map_values(
                    |id: u64| (id, None::<Seq<char>>, IssueKind::NoAnswerData),
                ),
                r@.map_values(|x: Issue| x@) == heads.take(c as int),
            decreases self.subject_issues@.len() - c,
        {
            r.push(Issue { subject_id: self.subject_issues[c], key: None, kind: IssueKind::NoAnswerData });
            assert(heads.take(c + 1) =~= heads.take(c as int).push(heads[c as int]));
            assert(r@.map_values(|x: Issue| x@) =~= heads.take(c + 1));
            c = c + 1;
        }
        assert(heads.take(c as int) =~= heads);
        let mut i: usize = 0;
        while i < self.slots.len()
            invariant
                self.wf(),
                i <= self.slots@.len(),
                r@.map_values(|x: Issue| x@) == heads + failed_upto(self.variants(), self.statuses(), i as nat),
            decreases self.slots@.len() - i,
        {
            match &self.status[i] {
                Status::Failed(k) => {
                    let ghost r0 = r@;
                    r.push(Issue { subject_id: self.slots[i].subject_id, key: Some(self.slots[i].key.clone()), kind: *k });
                    assert(r@.map_values(|x: Issue| x@) =~= r0.map_values(|x: Issue| x@).push(
                        (self.variants()[i as int].0, Some(self.variants()[i as int].1), *k),
                    ));
                },
                _ => {},
            }
            i = i + 1;
        }
        r
    }

    /// The calls spent so far.
    pub fn calls_made(&self) -> (r: u64)
        ensures
            r == self.calls(),
    {
        self.calls_made
    }

    /// Whether the run stopped on its call quota.
    pub fn stopped_early(&self) -> (r: bool)
        ensures
            r == self.stopped(),
    {
        self.stopped_early
    }
}

} // verus!
