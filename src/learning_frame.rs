use vstd::prelude::*;

verus! {

/// Frames smaller than this are kept whole as one batch.
pub const SPLIT_MIN_SIZE: usize = 6;

/// The current batch of a study session: indices of question nodes, in order, and their count.
#[derive(Clone, Debug)]
pub struct LearningFrame {
    pub size: usize,
    pub prompts: Vec<usize>,
}

impl View for LearningFrame {
    type V = (nat, Seq<usize>);

    open spec fn view(&self) -> (nat, Seq<usize>) {
        (self.size as nat, self.prompts@)
    }
}

/// `r` is what splitting `f` gives: `f` itself when it is small; otherwise its first half,
/// rounded down, and the rest.
pub open spec fn split_result(f: LearningFrame, r: (LearningFrame, Option<LearningFrame>)) -> bool {
    &&& r.0.wf()
    &&& f.size < SPLIT_MIN_SIZE ==> r.1 is None && r.0@ == f@
    &&& f.size >= SPLIT_MIN_SIZE ==> (r.1 matches Some(g) && {
        &&& g.wf()
        &&& r.0.size == f.size / 2
        &&& g.size == f.size - r.0.size
        &&& r.0.prompts@ + g.prompts@ == f.prompts@
    })
}

impl LearningFrame {
    /// The size field counts the indices.
    pub open spec fn wf(&self) -> bool {
        self.size == self.prompts@.len()
    }

    /// `other`'s indices after this frame's; the sizes add up.
    pub fn merge(self, other: LearningFrame) -> (r: Self)
        requires
            self.wf(),
            other.wf(),
        ensures
            r.wf(),
            r.size == self.size + other.size,
            r.prompts@ == self.prompts@ + other.prompts@,
    {
        let mut merged = self;
        let mut other = other;
        merged.prompts.append(&mut other.prompts);
        merged.size = merged.prompts.len();
        merged
    }

    /// A frame below `SPLIT_MIN_SIZE` comes back whole; a larger one is cut after its first
    /// `size / 2` indices.
    pub fn split(self) -> (r: (LearningFrame, Option<LearningFrame>))
        requires
            self.wf(),
        ensures
            split_result(self, r),
    {
        if self.size < SPLIT_MIN_SIZE {
            (self, None)
        } else {
            let mut first = self;
            let half_size = first.size / 2;
            let other = LearningFrame {
                size: first.size - half_size,
                prompts: first.prompts.split_off(half_size),
            };
            first.size = half_size;
            proof {
                assert(first.prompts@ + other.prompts@ =~= self.prompts@);
            }
            (first, Some(other))
        }
    }

    /// What `split` would give, leaving this frame as it is.
    pub fn split_cloned(&self) -> (r: (LearningFrame, Option<LearningFrame>))
        requires
            self.wf(),
        ensures
            split_result(*self, r),
    {
        let cloned = LearningFrame { size: self.size, prompts: self.prompts.clone() };
        proof {
            assert(cloned.prompts@ =~= self.prompts@);
        }
        let (first, other) = cloned.split();
        (first, other)
    }
}

/// Splitting a copy is repeatable: two results of splitting the same frame hold the same
/// sizes and the same indices.
pub proof fn lemma_split_repeatable(
    f: LearningFrame,
    r1: (LearningFrame, Option<LearningFrame>),
    r2: (LearningFrame, Option<LearningFrame>),
)
    requires
        f.wf(),
        split_result(f, r1),
        split_result(f, r2),
    ensures
        r1.0@ == r2.0@,
        r1.1 is Some <==> r2.1 is Some,
        r1.1 is Some ==> r1.1->0@ == r2.1->0@,
{
    if f.size >= SPLIT_MIN_SIZE {
        let g1 = r1.1->0;
        let g2 = r2.1->0;
        let h = f.size / 2;
        assert(r1.0.prompts@ =~= f.prompts@.subrange(0, h as int));
        assert(r2.0.prompts@ =~= f.prompts@.subrange(0, h as int));
        assert(g1.prompts@ =~= f.prompts@.subrange(h as int, f.size as int));
        assert(g2.prompts@ =~= f.prompts@.subrange(h as int, f.size as int));
    }
}

} // verus!
