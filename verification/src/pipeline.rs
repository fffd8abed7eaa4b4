//! The effect pipeline: an ordered stack of identified operations over an
//! immutable source image, replayed in full on every render. The pipeline
//! decides the render as a plan of steps — which primitive runs, with
//! which parameters, in which order — and the imaging backend that
//! executes the steps hands the finished frame back to be cached.
use vstd::prelude::*;

use crate::raster::Image;
use crate::watermark::WatermarkParams;
use crate::watermark::WatermarkParamsView;

verus! {

/// One effect in the stack, with its payload. Fractional payloads are
/// integers in thousandths of their natural unit.
pub enum Effect {
    /// Gaussian blur of the given radius; zero or less is a no-op.
    Blur { sigma_milli: i64 },
    /// Additive per-channel brightness shift.
    Brightness { delta: i32 },
    /// Multiplicative contrast adjustment about mid-gray.
    Contrast { factor_milli: i64 },
    /// Text watermark, laid out by the watermark compositor.
    Watermark { params: WatermarkParams },
}

/// The mathematical value of an `Effect`.
pub enum EffectView {
    Blur { sigma_milli: int },
    Brightness { delta: int },
    Contrast { factor_milli: int },
    Watermark { params: WatermarkParamsView },
}

impl View for Effect {
    type V = EffectView;

    open spec fn view(&self) -> EffectView {
        match self {
            Effect::Blur { sigma_milli } => EffectView::Blur { sigma_milli: *sigma_milli as int },
            Effect::Brightness { delta } => EffectView::Brightness { delta: *delta as int },
            Effect::Contrast { factor_milli } => EffectView::Contrast {
                factor_milli: *factor_milli as int,
            },
            Effect::Watermark { params } => EffectView::Watermark { params: params@ },
        }
    }
}

/// One entry of the pipeline: an effect under a stable identity. The
/// identity is handed out once by the owning pipeline and never reused,
/// so an operation stays trackable across reorders and parameter edits.
pub struct Operation {
    pub id: u64,
    pub effect: Effect,
}

/// The mathematical value of an `Operation`.
pub struct OperationView {
    pub id: int,
    pub effect: EffectView,
}

impl View for Operation {
    type V = OperationView;

    open spec fn view(&self) -> OperationView {
        OperationView { id: self.id as int, effect: self.effect@ }
    }
}

/// Operations are equal exactly when their identities are: payloads may
/// differ under the same identity while a value is edited in place.
impl PartialEq for Operation {
    fn eq(&self, other: &Self) -> (r: bool) {
        self.id == other.id
    }
}

impl vstd::std_specs::cmp::PartialEqSpecImpl for Operation {
    open spec fn obeys_eq_spec() -> bool {
        true
    }

    open spec fn eq_spec(&self, other: &Self) -> bool {
        self.id == other.id
    }
}

impl Eq for Operation {

}

/// A structural fault surfaced to the caller, as opposed to rendering
/// faults, which degrade to no-ops.
#[derive(Clone, Copy, Debug, PartialEq, Eq, Structural)]
pub enum PipelineError {
    /// No operation in the stack carries the requested identity.
    OperationNotFound,
}

/// One step of a decided render pass, in execution order.
pub enum RenderStep {
    Blur { sigma_milli: i64 },
    Brighten { delta: i32 },
    Contrast { factor_milli: i64 },
    Watermark { params: WatermarkParams },
}

/// The mathematical value of a `RenderStep`.
pub enum RenderStepView {
    Blur { sigma_milli: int },
    Brighten { delta: int },
    Contrast { factor_milli: int },
    Watermark { params: WatermarkParamsView },
}

impl View for RenderStep {
    type V = RenderStepView;

    open spec fn view(&self) -> RenderStepView {
        match self {
            RenderStep::Blur { sigma_milli } => RenderStepView::Blur {
                sigma_milli: *sigma_milli as int,
            },
            RenderStep::Brighten { delta } => RenderStepView::Brighten { delta: *delta as int },
            RenderStep::Contrast { factor_milli } => RenderStepView::Contrast {
                factor_milli: *factor_milli as int,
            },
            RenderStep::Watermark { params } => RenderStepView::Watermark { params: params@ },
        }
    }
}

/// The step an effect contributes to a render, if any: a blur of radius
/// zero or less contributes none, every other effect contributes exactly
/// its primitive.
pub open spec fn step_of(e: EffectView) -> Option<RenderStepView> {
    match e {
        EffectView::Blur { sigma_milli } => if sigma_milli <= 0 {
            Option::None
        } else {
            Option::Some(RenderStepView::Blur { sigma_milli })
        },
        EffectView::Brightness { delta } => Option::Some(RenderStepView::Brighten { delta }),
        EffectView::Contrast { factor_milli } => Option::Some(
            RenderStepView::Contrast { factor_milli },
        ),
        EffectView::Watermark { params } => Option::Some(RenderStepView::Watermark { params }),
    }
}

/// The steps one operation contributes to a plan: none or exactly one.
pub open spec fn step_seq(o: OperationView) -> Seq<RenderStepView> {
    match step_of(o.effect) {
        Option::Some(s) => seq![s],
        Option::None => Seq::<RenderStepView>::empty(),
    }
}

/// The full render plan of an operation list: each operation's step, in
/// the list's order.
pub open spec fn plan_of(ops: Seq<OperationView>) -> Seq<RenderStepView>
    decreases ops.len(),
{
    if ops.len() == 0 {
        Seq::empty()
    } else {
        step_seq(ops[0]).add(plan_of(ops.drop_first()))
    }
}

/// The views of a list of operations.
pub open spec fn ops_view(ops: Seq<Operation>) -> Seq<OperationView> {
    ops.map_values(|o: Operation| o@)
}

/// The views of a list of render steps.
pub open spec fn steps_view(steps: Seq<RenderStep>) -> Seq<RenderStepView> {
    steps.map_values(|s: RenderStep| s@)
}

/// A plan grows at the end by the step of the appended operation.
proof fn lemma_plan_of_snoc(ops: Seq<OperationView>, o: OperationView)
    ensures
        plan_of(ops.push(o)) == plan_of(ops).add(step_seq(o)),
    decreases ops.len(),
{
    if ops.len() == 0 {
        assert(ops.push(o)[0] == o);
        assert(ops.push(o).drop_first() =~= Seq::<OperationView>::empty());
        assert(plan_of(Seq::<OperationView>::empty()) == Seq::<RenderStepView>::empty());
        assert(plan_of(ops.push(o)) == step_seq(o).add(Seq::<RenderStepView>::empty()));
        assert(step_seq(o).add(Seq::<RenderStepView>::empty()) =~= step_seq(o));
        assert(plan_of(ops).add(step_seq(o)) =~= step_seq(o));
    } else {
        assert(ops.push(o)[0] == ops[0]);
        assert(ops.push(o).drop_first() =~= ops.drop_first().push(o));
        lemma_plan_of_snoc(ops.drop_first(), o);
        assert(plan_of(ops.push(o)) == step_seq(ops[0]).add(
            plan_of(ops.drop_first()).add(step_seq(o)),
        ));
        assert(step_seq(ops[0]).add(plan_of(ops.drop_first()).add(step_seq(o))) =~= (step_seq(
            ops[0],
        ).add(plan_of(ops.drop_first()))).add(step_seq(o)));
    }
}

/// The first index carrying identity `id`, or `-1` when none does.
pub open spec fn find_id(ops: Seq<Operation>, id: u64) -> int
    decreases ops.len(),
{
    if ops.len() == 0 {
        -1
    } else if ops[0].id == id {
        0
    } else {
        let r = find_id(ops.drop_first(), id);
        if r == -1 {
            -1
        } else {
            r + 1
        }
    }
}

/// A found index is `-1` or a position in the list.
proof fn lemma_find_id_range(ops: Seq<Operation>, id: u64)
    ensures
        -1 <= find_id(ops, id) < ops.len(),
    decreases ops.len(),
{
    if ops.len() == 0 {
    } else if ops[0].id == id {
    } else {
        lemma_find_id_range(ops.drop_first(), id);
    }
}

/// Scanning past a prefix without the identity shifts the found index.
proof fn lemma_find_id_skip(ops: Seq<Operation>, id: u64, i: int)
    requires
        0 <= i <= ops.len(),
        forall|j: int| 0 <= j < i ==> (#[trigger] ops[j]).id != id,
    ensures
        find_id(ops, id) == -1 <==> find_id(ops.skip(i), id) == -1,
        find_id(ops.skip(i), id) >= 0 ==> find_id(ops, id) == i + find_id(ops.skip(i), id),
    decreases i,
{
    if i == 0 {
        assert(ops.skip(0) =~= ops);
    } else {
        assert(ops[0].id != id);
        lemma_find_id_range(ops.drop_first(), id);
        assert(ops.drop_first() =~= ops.skip(1));
        assert(ops.skip(1).skip(i - 1) =~= ops.skip(i));
        assert(forall|j: int|
            0 <= j < i - 1 ==> (#[trigger] ops.skip(1)[j]).id == ops[j + 1].id && ops[j + 1].id
                != id);
        lemma_find_id_skip(ops.skip(1), id, i - 1);
    }
}

/// The pipeline: the ordered operation stack, the identity counter, the
/// immutable source image, the cached last render and the dirty flag
/// every mutation raises.
pub struct Pipeline {
    pub ops: Vec<Operation>,
    pub next_id: u64,
    pub source: Image,
    pub cached: Option<Image>,
    pub dirty: bool,
}

impl Pipeline {
    /// The views of the held operations.
    pub open spec fn ops_v(&self) -> Seq<OperationView> {
        ops_view(self.ops@)
    }

    /// The structural invariant: the source raster is well-formed, every
    /// held identity was handed out by the counter and no identity
    /// repeats, and a cached render matches the source's dimensions.
    pub open spec fn wf(&self) -> bool {
        &&& self.source.wf()
        &&& forall|i: int| 0 <= i < self.ops@.len() ==> (#[trigger] self.ops@[i]).id < self.next_id
        &&& forall|i: int, j: int|
            0 <= i < j < self.ops@.len() ==> self.ops@[i].id != self.ops@[j].id
        &&& match self.cached {
            Option::Some(c) => c.wf() && c.width == self.source.width && c.height
                == self.source.height,
            Option::None => true,
        }
    }

    /// A fresh pipeline over a source image: no operations, identities
    /// start at zero, nothing rendered yet.
    pub fn new(source: Image) -> (p: Pipeline)
        requires
            source.wf(),
        ensures
            p.wf(),
            p.ops@.len() == 0,
            p.next_id == 0,
            p.source == source,
            p.cached is None,
            p.dirty,
    {
        Pipeline { ops: Vec::new(), next_id: 0, source, cached: None, dirty: true }
    }

    /// Mints an operation under the next identity and advances the
    /// counter; the stack itself is untouched. The new identity is
    /// strictly greater than every identity ever handed out before.
    pub fn new_operation(&mut self, effect: Effect) -> (op: Operation)
        requires
            old(self).wf(),
            old(self).next_id < u64::MAX,
        ensures
            final(self).wf(),
            op.id == old(self).next_id,
            op.effect == effect,
            final(self).next_id == old(self).next_id + 1,
            final(self).ops == old(self).ops,
            final(self).source == old(self).source,
            final(self).cached == old(self).cached,
            final(self).dirty == old(self).dirty,
            forall|i: int|
                0 <= i < old(self).ops@.len() ==> (#[trigger] old(self).ops@[i]).id < op.id,
    {
        let op = Operation { id: self.next_id, effect };
        self.next_id = self.next_id + 1;
        op
    }

    /// Appends a new operation with the given effect at the end of the
    /// stack and marks the pipeline dirty. The count grows by exactly
    /// one and the new identity exceeds every previously assigned one.
    pub fn append(&mut self, effect: Effect)
        requires
            old(self).wf(),
            old(self).next_id < u64::MAX,
        ensures
            final(self).wf(),
            final(self).ops@ == old(self).ops@.push(
                (Operation { id: old(self).next_id, effect }),
            ),
            final(self).ops@.len() == old(self).ops@.len() + 1,
            final(self).next_id == old(self).next_id + 1,
            final(self).dirty,
            final(self).source == old(self).source,
            final(self).cached == old(self).cached,
            forall|i: int|
                0 <= i < old(self).ops@.len() ==> (#[trigger] old(self).ops@[i]).id < old(
                    self,
                ).next_id,
    {
        let op = self.new_operation(effect);
        self.ops.push(op);
        self.dirty = true;
    }

    /// Removes the operation carrying `id` and marks the pipeline dirty;
    /// when no operation carries it, fails loudly and changes nothing —
    /// a missing identity is a caller bug, not user input.
    pub fn remove_by_id(&mut self, id: u64) -> (r: Result<(), PipelineError>)
        requires
            old(self).wf(),
        ensures
            final(self).wf(),
            final(self).next_id == old(self).next_id,
            final(self).source == old(self).source,
            final(self).cached == old(self).cached,
            match r {
                Ok(()) => {
                    &&& 0 <= find_id(old(self).ops@, id) < old(self).ops@.len()
                    &&& old(self).ops@[find_id(old(self).ops@, id)].id == id
                    &&& final(self).ops@ == old(self).ops@.remove(find_id(old(self).ops@, id))
                    &&& final(self).dirty
                },
                Err(e) => {
                    &&& e == PipelineError::OperationNotFound
                    &&& find_id(old(self).ops@, id) == -1
                    &&& *final(self) == *old(self)
                },
            },
    {
        let n = self.ops.len();
        let mut i: usize = 0;
        while i < n
            invariant
                i <= n,
                n == self.ops@.len(),
                *self == *old(self),
                self.wf(),
                forall|j: int| 0 <= j < i ==> (#[trigger] self.ops@[j]).id != id,
            decreases n - i,
        {
            if self.ops[i].id == id {
                proof {
                    lemma_find_id_skip(self.ops@, id, i as int);
                    assert(self.ops@.skip(i as int)[0] == self.ops@[i as int]);
                    assert(find_id(self.ops@.skip(i as int), id) == 0);
                    assert(find_id(self.ops@, id) == i as int);
                }
                let ghost before = self.ops@;
                self.ops.remove(i);
                self.dirty = true;
                proof {
                    assert forall|a: int, b: int|
                        0 <= a < b < self.ops@.len() implies self.ops@[a].id
                        != self.ops@[b].id by {
                        if b < i as int {
                            assert(self.ops@[a] == before[a]);
                            assert(self.ops@[b] == before[b]);
                        } else if a < i as int {
                            assert(self.ops@[a] == before[a]);
                            assert(self.ops@[b] == before[b + 1]);
                        } else {
                            assert(self.ops@[a] == before[a + 1]);
                            assert(self.ops@[b] == before[b + 1]);
                        }
                    }
                    assert forall|j: int| 0 <= j < self.ops@.len() implies (
                    #[trigger] self.ops@[j]).id < self.next_id by {
                        if j < i as int {
                            assert(self.ops@[j] == before[j]);
                        } else {
                            assert(self.ops@[j] == before[j + 1]);
                        }
                    }
                }
                return Ok(());
            }
            i = i + 1;
        }
        proof {
            lemma_find_id_skip(self.ops@, id, n as int);
            assert(self.ops@.skip(n as int) =~= Seq::<Operation>::empty());
        }
        Err(PipelineError::OperationNotFound)
    }

    /// Moves the operation at `from` so that it sits at `to`, shifting
    /// the ones between, and marks the pipeline dirty: the one reorder
    /// primitive, from which any permutation can be reached.
    pub fn move_operation(&mut self, from: usize, to: usize)
        requires
            old(self).wf(),
            from < old(self).ops@.len(),
            to < old(self).ops@.len(),
        ensures
            final(self).wf(),
            final(self).ops@ == old(self).ops@.remove(from as int).insert(
                to as int,
                old(self).ops@[from as int],
            ),
            final(self).dirty,
            final(self).next_id == old(self).next_id,
            final(self).source == old(self).source,
            final(self).cached == old(self).cached,
    {
        let ghost before = self.ops@;
        let op = self.ops.remove(from);
        self.ops.insert(to, op);
        self.dirty = true;
        proof {
            let mid = before.remove(from as int);
            let after = self.ops@;
            assert(after == mid.insert(to as int, before[from as int]));
            assert forall|a: int, b: int| 0 <= a < b < after.len() implies after[a].id
                != after[b].id by {
                let oa = if a < to as int {
                    if a < from as int {
                        a
                    } else {
                        a + 1
                    }
                } else if a == to as int {
                    from as int
                } else {
                    if a - 1 < from as int {
                        a - 1
                    } else {
                        a
                    }
                };
                let ob = if b < to as int {
                    if b < from as int {
                        b
                    } else {
                        b + 1
                    }
                } else if b == to as int {
                    from as int
                } else {
                    if b - 1 < from as int {
                        b - 1
                    } else {
                        b
                    }
                };
                assert(after[a] == before[oa]);
                assert(after[b] == before[ob]);
                assert(oa != ob);
            }
            assert forall|i: int| 0 <= i < after.len() implies (#[trigger] after[i]).id < self.next_id by {
                if i < to as int {
                    if i < from as int {
                        assert(after[i] == before[i]);
                    } else {
                        assert(after[i] == before[i + 1]);
                    }
                } else if i == to as int {
                    assert(after[i] == before[from as int]);
                } else {
                    if i - 1 < from as int {
                        assert(after[i] == before[i - 1]);
                    } else {
                        assert(after[i] == before[i]);
                    }
                }
            }
        }
    }

    /// Replaces the payload of the operation at `index` in place — its
    /// identity survives the edit — and marks the pipeline dirty.
    pub fn set_effect(&mut self, index: usize, effect: Effect)
        requires
            old(self).wf(),
            index < old(self).ops@.len(),
        ensures
            final(self).wf(),
            final(self).ops@ == old(self).ops@.update(
                index as int,
                (Operation { id: old(self).ops@[index as int].id, effect }),
            ),
            final(self).dirty,
            final(self).next_id == old(self).next_id,
            final(self).source == old(self).source,
            final(self).cached == old(self).cached,
    {
        let id = self.ops[index].id;
        self.ops[index] = Operation { id, effect };
        self.dirty = true;
    }

    /// The number of operations in the stack.
    pub fn len(&self) -> (n: usize)
        ensures
            n == self.ops@.len(),
    {
        self.ops.len()
    }

    /// The operation at `index`.
    pub fn get(&self, index: usize) -> (op: &Operation)
        requires
            index < self.ops@.len(),
        ensures
            *op == self.ops@[index as int],
    {
        &self.ops[index]
    }

    /// Whether the cached result is stale and must be re-rendered before
    /// being shown.
    pub fn is_dirty(&self) -> (d: bool)
        ensures
            d == self.dirty,
    {
        self.dirty
    }

    /// The untouched source image.
    pub fn source_image(&self) -> (img: &Image)
        ensures
            *img == self.source,
    {
        &self.source
    }

    /// The cached last render. Consumers must not read it while the
    /// pipeline is dirty: re-render first.
    pub fn cached_result(&self) -> (r: Option<&Image>)
        requires
            !self.dirty,
        ensures
            match r {
                Option::Some(img) => self.cached == Option::Some(*img),
                Option::None => self.cached is None,
            },
    {
        self.cached.as_ref()
    }

    /// The starting frame of a render pass: an independent copy of the
    /// source, which itself is never mutated — every render replays the
    /// stack from the untouched original.
    pub fn begin_render(&self) -> (img: Image)
        requires
            self.wf(),
        ensures
            img.wf(),
            img.width == self.source.width,
            img.height == self.source.height,
            img.data@ == self.source.data@,
    {
        self.source.duplicate()
    }

    /// The decided steps of a render pass over the current stack, in
    /// order: exactly `plan_of` the held operations. Rendering never
    /// fails — an effect that cannot act contributes no step instead.
    pub fn render_plan(&self) -> (steps: Vec<RenderStep>)
        ensures
            steps_view(steps@) == plan_of(self.ops_v()),
    {
        let n = self.ops.len();
        let mut steps: Vec<RenderStep> = Vec::new();
        let mut i: usize = 0;
        proof {
            assert(ops_view(self.ops@.take(0)) =~= Seq::<OperationView>::empty());
            assert(steps_view(steps@) =~= Seq::<RenderStepView>::empty());
        }
        while i < n
            invariant
                i <= n,
                n == self.ops@.len(),
                steps_view(steps@) == plan_of(ops_view(self.ops@.take(i as int))),
            decreases n - i,
        {
            let ghost prefix = ops_view(self.ops@.take(i as int));
            let ghost opv = self.ops@[i as int]@;
            proof {
                assert(ops_view(self.ops@.take(i as int + 1)) =~= prefix.push(opv));
                lemma_plan_of_snoc(prefix, opv);
            }
            let ghost steps_before = steps@;
            match &self.ops[i].effect {
                Effect::Blur { sigma_milli } => {
                    if *sigma_milli > 0 {
                        steps.push(RenderStep::Blur { sigma_milli: *sigma_milli });
                    }
                },
                Effect::Brightness { delta } => {
                    steps.push(RenderStep::Brighten { delta: *delta });
                },
                Effect::Contrast { factor_milli } => {
                    steps.push(RenderStep::Contrast { factor_milli: *factor_milli });
                },
                Effect::Watermark { params } => {
                    steps.push(RenderStep::Watermark { params: params.duplicate() });
                },
            }
            proof {
                if steps@.len() == steps_before.len() {
                    assert(steps_view(steps@) =~= steps_view(steps_before));
                } else {
                    assert(steps_view(steps@) =~= steps_view(steps_before).push(
                        steps@.last()@,
                    ));
                }
            }
            i = i + 1;
        }
        proof {
            assert(self.ops@.take(n as int) =~= self.ops@);
        }
        steps
    }

    /// Stores the frame a render pass produced: it becomes the cached
    /// result and the pipeline is clean until the next mutation.
    pub fn complete_render(&mut self, img: Image)
        requires
            old(self).wf(),
            img.wf(),
            img.width == old(self).source.width,
            img.height == old(self).source.height,
        ensures
            final(self).wf(),
            final(self).cached == Option::Some(img),
            !final(self).dirty,
            final(self).ops == old(self).ops,
            final(self).next_id == old(self).next_id,
            final(self).source == old(self).source,
    {
        self.cached = Some(img);
        self.dirty = false;
    }
}

/// Two pipelines whose stacks carry the same effects in the same order
/// decide the same render plan, whatever their identities: a render
/// depends only on the ordered effects, so replaying an unmodified
/// pipeline always reproduces the same output, and reordering back into
/// the same order restores it.
pub proof fn lemma_plan_depends_only_on_effects(a: Seq<OperationView>, b: Seq<OperationView>)
    requires
        a.len() == b.len(),
        forall|i: int| 0 <= i < a.len() ==> (#[trigger] a[i]).effect == b[i].effect,
    ensures
        plan_of(a) == plan_of(b),
    decreases a.len(),
{
    if a.len() == 0 {
    } else {
        assert(a[0].effect == b[0].effect);
        assert(forall|i: int|
            0 <= i < a.drop_first().len() ==> (#[trigger] a.drop_first()[i]).effect
                == b.drop_first()[i].effect);
        lemma_plan_depends_only_on_effects(a.drop_first(), b.drop_first());
    }
}

/// Appending an operation under a fresh identity and then removing that
/// identity restores the operation list exactly: a render after the pair
/// of edits equals the render of the list that never held it.
pub proof fn lemma_append_then_remove(ops: Seq<Operation>, op: Operation)
    requires
        forall|i: int| 0 <= i < ops.len() ==> (#[trigger] ops[i]).id != op.id,
    ensures
        find_id(ops.push(op), op.id) == ops.len(),
        ops.push(op).remove(ops.len() as int) == ops,
    decreases ops.len(),
{
    assert(ops.push(op).remove(ops.len() as int) =~= ops);
    if ops.len() == 0 {
        assert(ops.push(op)[0] == op);
    } else {
        assert(ops.push(op)[0] == ops[0]);
        assert(ops.push(op).drop_first() =~= ops.drop_first().push(op));
        assert(forall|i: int|
            0 <= i < ops.drop_first().len() ==> (#[trigger] ops.drop_first()[i]).id != op.id);
        lemma_append_then_remove(ops.drop_first(), op);
    }
}

/// A blur of radius zero or less is skipped entirely: inserting such an
/// operation anywhere leaves the render plan exactly as it was, so the
/// rendered image is byte-identical to the one without it.
pub proof fn lemma_zero_blur_invisible(ops: Seq<OperationView>, k: int, op: OperationView)
    requires
        0 <= k <= ops.len(),
        op.effect matches EffectView::Blur { sigma_milli } && sigma_milli <= 0,
    ensures
        plan_of(ops.insert(k, op)) == plan_of(ops),
    decreases ops.len(),
{
    if k == 0 {
        assert(ops.insert(0, op)[0] == op);
        assert(ops.insert(0, op).drop_first() =~= ops);
        assert(plan_of(ops.insert(0, op)) =~= plan_of(ops));
    } else {
        assert(ops.insert(k, op)[0] == ops[0]);
        assert(ops.insert(k, op).drop_first() =~= ops.drop_first().insert(k - 1, op));
        lemma_zero_blur_invisible(ops.drop_first(), k - 1, op);
        assert(plan_of(ops.insert(k, op)) =~= plan_of(ops));
    }
}

} // verus!
