//! Character mapping through control files, and input decoding.

use vstd::prelude::*;

pub mod decoder;

verus! {

/// A mapping of control files: the codes `lo..=hi` map onto
/// `target..=target + (hi - lo)`, keeping their order.
#[derive(Clone, Copy, Debug)]
pub struct FlcRange {
    pub lo: i32,
    pub hi: i32,
    pub target: i32,
}

impl FlcRange {
    pub open spec fn wf(self) -> bool {
        self.lo <= self.hi && self.target + (self.hi - self.lo) <= i32::MAX
    }

    pub open spec fn contains(self, c: i32) -> bool {
        self.lo <= c <= self.hi
    }
}

/// The code that one stage of mappings gives `c`: the first mapping
/// whose range holds `c` maps it, and `c` stays when none does.
pub open spec fn stage_map(stage: Seq<FlcRange>, c: i32) -> i32
    decreases stage.len(),
{
    if stage.len() == 0 {
        c
    } else if stage[0].contains(c) {
        (stage[0].target + (c - stage[0].lo)) as i32
    } else {
        stage_map(stage.drop_first(), c)
    }
}

/// The code that the stages, applied one after the other, give `c`.
pub open spec fn pipeline_map(stages: Seq<Seq<FlcRange>>, c: i32) -> i32
    decreases stages.len(),
{
    if stages.len() == 0 {
        c
    } else {
        pipeline_map(stages.drop_first(), stage_map(stages[0], c))
    }
}

/// A character-mapping pipeline made of the stages of one or more control
/// files: each stage maps the code that the stage before it gave.
#[derive(Debug)]
pub struct FlcPipeline {
    stages: Vec<Vec<FlcRange>>,
}

impl FlcPipeline {
    pub closed spec fn stages(self) -> Seq<Seq<FlcRange>> {
        self.stages@.map_values(|st: Vec<FlcRange>| st@)
    }

    pub open spec fn wf(self) -> bool {
        forall|i: int, j: int|
            0 <= i < self.stages().len() && 0 <= j < self.stages()[i].len() ==> (
            #[trigger] self.stages()[i][j]).wf()
    }

    /// The pipeline that maps every code onto itself.
    pub fn new() -> (r: Self)
        ensures
            r.stages() == Seq::<Seq<FlcRange>>::empty(),
            r.wf(),
    {
        let r = FlcPipeline { stages: Vec::new() };
        assert(r.stages() =~= Seq::<Seq<FlcRange>>::empty());
        r
    }

    /// Append a stage of mappings, which maps what the stages before it
    /// give. A stage with a mapping that is not well formed (an empty
    /// range, or one whose image leaves `i32`) is refused and nothing changes.
    pub fn push_stage(&mut self, stage: Vec<FlcRange>) -> (r: bool)
        requires
            old(self).wf(),
        ensures
            final(self).wf(),
            r == (forall|j: int| 0 <= j < stage@.len() ==> (#[trigger] stage@[j]).wf()),
            r ==> final(self).stages() == old(self).stages().push(stage@),
            !r ==> final(self).stages() == old(self).stages(),
    {
        let mut j: usize = 0;
        while j < stage.len()
            invariant
                self.wf(),
                self.stages() == old(self).stages(),
                j <= stage@.len(),
                forall|k: int| 0 <= k < j ==> (#[trigger] stage@[k]).wf(),
            decreases stage@.len() - j,
        {
            let t = stage[j];
            if t.lo > t.hi || (t.hi as i64) - (t.lo as i64) > (i32::MAX as i64) - (t.target as i64) {
                return false;
            }
            j += 1;
        }
        let ghost old_stages = self.stages();
        let ghost st = stage@;
        self.stages.push(stage);
        assert(self.stages() =~= old_stages.push(st));
        true
    }

    /// Map `code` through every stage.
    pub fn apply(&self, code: i32) -> (r: i32)
        requires
            self.wf(),
        ensures
            r == pipeline_map(self.stages(), code),
    {
        let mut c = code;
        let mut i: usize = 0;
        assert(self.stages().skip(0) =~= self.stages());
        while i < self.stages.len()
            invariant
                self.wf(),
                i <= self.stages@.len(),
                pipeline_map(self.stages(), code) == pipeline_map(self.stages().skip(i as int), c),
            decreases self.stages@.len() - i,
        {
            let stage = &self.stages[i];
            let ghost rest = self.stages().skip(i as int);
            assert(rest[0] == stage@);
            assert(rest.drop_first() =~= self.stages().skip(i + 1));
            let ghost c0 = c;
            let mut j: usize = 0;
            let mut found = false;
            assert(stage@.skip(0) =~= stage@);
            while j < stage.len() && !found
                invariant
                    self.wf(),
                    i < self.stages@.len(),
                    stage@ == self.stages()[i as int],
                    j <= stage@.len(),
                    !found ==> c == c0,
                    !found ==> stage_map(stage@, c0) == stage_map(stage@.skip(j as int), c0),
                    found ==> c == stage_map(stage@, c0),
                decreases stage@.len() - j,
            {
                let t = stage[j];
                assert(stage@.skip(j as int)[0] == t);
                assert(stage@.skip(j as int).drop_first() =~= stage@.skip(j + 1));
                assert(t.wf());
                if t.lo <= c && c <= t.hi {
                    c = ((t.target as i64) + ((c as i64) - (t.lo as i64))) as i32;
                    found = true;
                }
                j += 1;
            }
            proof {
                if !found {
                    assert(stage@.skip(j as int) =~= Seq::<FlcRange>::empty());
                }
            }
            i += 1;
        }
        assert(self.stages().skip(i as int) =~= Seq::<Seq<FlcRange>>::empty());
        c
    }
}


/// In a stage the first mapping whose range holds a code maps it, keeping
/// its place in the range; a code that no range holds stays; the stages
/// apply one after the other.
pub proof fn law_first_mapping_wins(stage: Seq<FlcRange>, c: i32, j: int)
    requires
        0 <= j < stage.len(),
        stage[j].wf(),
        stage[j].contains(c),
        forall|k: int| 0 <= k < j ==> !(#[trigger] stage[k]).contains(c),
    ensures
        stage_map(stage, c) == stage[j].target + (c - stage[j].lo),
    decreases j,
{
    if j > 0 {
        assert(!stage[0].contains(c));
        assert forall|k: int| 0 <= k < j - 1 implies !(#[trigger] stage.drop_first()[k]).contains(c) by {
            assert(stage.drop_first()[k] == stage[k + 1]);
        }
        law_first_mapping_wins(stage.drop_first(), c, j - 1);
    }
}

/// A code that no range of a stage holds passes it unchanged, and the
/// stages of a pipeline apply in order.
pub proof fn law_unmapped_and_order(stage: Seq<FlcRange>, c: i32, rest: Seq<Seq<FlcRange>>)
    ensures
        (forall|k: int| 0 <= k < stage.len() ==> !(#[trigger] stage[k]).contains(c)) ==> stage_map(
            stage,
            c,
        ) == c,
        pipeline_map(seq![stage] + rest, c) == pipeline_map(rest, stage_map(stage, c)),
    decreases stage.len(),
{
    if stage.len() > 0 {
        law_unmapped_and_order(stage.drop_first(), c, rest);
        if forall|k: int| 0 <= k < stage.len() ==> !(#[trigger] stage[k]).contains(c) {
            assert(!stage[0].contains(c));
            assert forall|k: int| 0 <= k < stage.drop_first().len() implies !(
            #[trigger] stage.drop_first()[k]).contains(c) by {
                assert(stage.drop_first()[k] == stage[k + 1]);
            }
        }
    }
    assert((seq![stage] + rest).drop_first() =~= rest);
}

} // verus!
