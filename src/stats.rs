use vstd::prelude::*;
use crate::run::METRIC_COUNT;

verus! {

/// The largest count an aggregate takes, so that sums of byte scores fit.
pub const MAX_COUNT: u64 = 0xFFFF_FFFF_FFFF_FFFF / 256;

pub open spec fn min_u8(a: u8, b: u8) -> u8 {
    if a <= b {
        a
    } else {
        b
    }
}

pub open spec fn max_u8(a: u8, b: u8) -> u8 {
    if a >= b {
        a
    } else {
        b
    }
}

/// Running minimum, maximum, sum and count of one metric's scores.
pub struct MetricAgg {
    pub min: u8,
    pub max: u8,
    pub sum: u64,
    pub count: u64,
}

impl MetricAgg {
    /// The sum stays within what `count` byte scores can add up to.
    pub open spec fn wf(&self) -> bool {
        &&& self.count <= MAX_COUNT
        &&& self.sum <= 255 * self.count
    }

    /// An empty aggregate: the minimum starts at the top of the scale and the
    /// maximum at the bottom.
    pub fn new() -> (r: MetricAgg)
        ensures
            r.wf(),
            r.min == u8::MAX,
            r.max == u8::MIN,
            r.sum == 0,
            r.count == 0,
    {
        MetricAgg { min: u8::MAX, max: u8::MIN, sum: 0, count: 0 }
    }

    /// Adds one score.
    pub fn update(&mut self, score: u8)
        requires
            old(self).wf(),
            old(self).count < MAX_COUNT,
        ensures
            final(self).wf(),
            final(self).min == min_u8(old(self).min, score),
            final(self).max == max_u8(old(self).max, score),
            final(self).sum == old(self).sum + score,
            final(self).count == old(self).count + 1,
    {
        if score < self.min {
            self.min = score;
        }
        if score > self.max {
            self.max = score;
        }
        self.sum = self.sum + score as u64;
        self.count = self.count + 1;
    }
}

/// Per-metric aggregates of the score vectors of one paraphrase kind.
pub struct ParaphraseAgg {
    pub count: u64,
    pub sum: Vec<u64>,
    pub min: Vec<u8>,
    pub max: Vec<u8>,
}

impl ParaphraseAgg {
    /// One slot per metric, and sums within what `count` byte scores give.
    pub open spec fn wf(&self) -> bool {
        &&& self.sum@.len() == METRIC_COUNT
        &&& self.min@.len() == METRIC_COUNT
        &&& self.max@.len() == METRIC_COUNT
        &&& self.count <= MAX_COUNT
        &&& forall|i: int| 0 <= i < METRIC_COUNT ==> #[trigger] self.sum@[i] <= 255 * self.count
    }

    /// An empty aggregate over every metric.
    pub fn new() -> (r: ParaphraseAgg)
        ensures
            r.wf(),
            r.count == 0,
            forall|i: int|
                0 <= i < METRIC_COUNT ==> #[trigger] r.sum@[i] == 0 && r.min@[i] == u8::MAX
                    && r.max@[i] == u8::MIN,
    {
        let mut sum: Vec<u64> = Vec::new();
        let mut min: Vec<u8> = Vec::new();
        let mut max: Vec<u8> = Vec::new();
        for i in 0..METRIC_COUNT
            invariant
                sum@.len() == i,
                min@.len() == i,
                max@.len() == i,
                sum@ == Seq::new(i as nat, |_j: int| 0u64),
                min@ == Seq::new(i as nat, |_j: int| u8::MAX),
                max@ == Seq::new(i as nat, |_j: int| u8::MIN),
        {
            sum.push(0);
            min.push(u8::MAX);
            max.push(u8::MIN);
            assert(sum@ =~= Seq::new((i + 1) as nat, |_j: int| 0u64));
            assert(min@ =~= Seq::new((i + 1) as nat, |_j: int| u8::MAX));
            assert(max@ =~= Seq::new((i + 1) as nat, |_j: int| u8::MIN));
        }
        ParaphraseAgg { count: 0, sum, min, max }
    }

    /// Adds one score vector; scores past the last metric are ignored, and
    /// metrics past the end of a short vector are left as they were.
    pub fn update(&mut self, scores: &[u8])
        requires
            old(self).wf(),
            old(self).count < MAX_COUNT,
        ensures
            final(self).wf(),
            final(self).count == old(self).count + 1,
            forall|i: int|
                0 <= i < METRIC_COUNT ==> if i < scores@.len() {
                    &&& #[trigger] final(self).sum@[i] == old(self).sum@[i] + scores@[i]
                    &&& final(self).min@[i] == min_u8(old(self).min@[i], scores@[i])
                    &&& final(self).max@[i] == max_u8(old(self).max@[i], scores@[i])
                } else {
                    &&& final(self).sum@[i] == old(self).sum@[i]
                    &&& final(self).min@[i] == old(self).min@[i]
                    &&& final(self).max@[i] == old(self).max@[i]
                },
    {
        let ghost s0 = *self;
        self.count = self.count + 1;
        let n = if scores.len() < METRIC_COUNT {
            scores.len()
        } else {
            METRIC_COUNT
        };
        for i in 0..n
            invariant
                n <= METRIC_COUNT,
                n <= scores@.len(),
                s0.wf(),
                self.count == s0.count + 1,
                self.count <= MAX_COUNT,
                self.sum@.len() == METRIC_COUNT,
                self.min@.len() == METRIC_COUNT,
                self.max@.len() == METRIC_COUNT,
                forall|j: int|
                    #![trigger self.sum@[j]]
                    #![trigger self.min@[j]]
                    #![trigger self.max@[j]]
                    0 <= j < METRIC_COUNT ==> if j < i {
                        &&& self.sum@[j] == s0.sum@[j] + scores@[j]
                        &&& self.min@[j] == min_u8(s0.min@[j], scores@[j])
                        &&& self.max@[j] == max_u8(s0.max@[j], scores@[j])
                    } else {
                        &&& self.sum@[j] == s0.sum@[j]
                        &&& self.min@[j] == s0.min@[j]
                        &&& self.max@[j] == s0.max@[j]
                    },
        {
            let s = scores[i];
            assert(self.sum@[i as int] == s0.sum@[i as int]);
            assert(s0.sum@[i as int] <= 255 * s0.count);
            let total = self.sum[i] + s as u64;
            self.sum.set(i, total);
            let lo = if s < self.min[i] {
                s
            } else {
                self.min[i]
            };
            self.min.set(i, lo);
            let hi = if s > self.max[i] {
                s
            } else {
                self.max[i]
            };
            self.max.set(i, hi);
        }
    }
}

/// The words left out when counting terms.
pub open spec fn stop_word_list() -> Seq<Seq<char>> {
    seq![
        "i"@, "and"@, "or"@, "the"@, "a"@, "an"@, "to"@, "of"@, "for"@, "in"@, "on"@, "with"@,
        "at"@, "by"@, "from"@, "as"@, "is"@, "are"@, "was"@, "were"@, "be"@, "being"@, "been"@,
        "it"@, "this"@, "that"@, "these"@, "those"@, "but"@, "not"@, "no"@, "nor"@, "so"@,
        "too"@, "very"@, "your"@, "will"@,
    ]
}

/// The stop words, in a fixed order and each once.
pub fn stop_words() -> (r: Vec<&'static str>)
    ensures
        r@.map_values(|w: &str| w@) == stop_word_list(),
{
    let r = vec![
        "i", "and", "or", "the", "a", "an", "to", "of", "for", "in", "on", "with", "at", "by",
        "from", "as", "is", "are", "was", "were", "be", "being", "been", "it", "this", "that",
        "these", "those", "but", "not", "no", "nor", "so", "too", "very", "your", "will",
    ];
    assert(r@.map_values(|w: &str| w@) =~= stop_word_list());
    r
}

} // verus!
