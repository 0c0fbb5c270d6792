use vstd::prelude::*;

verus! {

/// Fixed-point scale of the bounded parameters: a control value of 1.0 is
/// stored as `PARAM_SCALE`, so a parameter lies in `[0, PARAM_SCALE]`.
pub const PARAM_SCALE: u32 = 65536;

/// Largest accepted grain size; keeps every derived quantity (the 5/4
/// compensation delay, the factor-of-two comparisons) within a machine word.
pub const MAX_GRAIN_SIZE: usize = 0x1000_0000;

/// The live parameter set of the engine. Each bounded control is a
/// fixed-point fraction of `PARAM_SCALE`; `glitch_gain` may exceed the scale.
#[derive(Clone, Copy, PartialEq, Eq, Structural)]
pub struct SpectralDecayParameters {
    /// Selects the active grain entry by discretising `[0, 1]` over the ladder.
    pub grain_select: u32,
    /// Phase-randomisation strength.
    pub fuzz: u32,
    /// Relative-magnitude gate threshold.
    pub loss: u32,
    /// Probability scale for spike injection.
    pub glitch_freq: u32,
    /// Amplitude multiplier for injected spikes.
    pub glitch_gain: u32,
    /// Selects, independently of the active grain, which ladder entry fixes
    /// the reported total latency.
    pub delay_select: u32,
}

impl SpectralDecayParameters {
    pub open spec fn valid(&self) -> bool {
        &&& self.grain_select <= PARAM_SCALE
        &&& self.fuzz <= PARAM_SCALE
        &&& self.loss <= PARAM_SCALE
        &&& self.glitch_freq <= PARAM_SCALE
        &&& self.delay_select <= PARAM_SCALE
    }

    pub open spec fn spec_default() -> SpectralDecayParameters {
        SpectralDecayParameters {
            grain_select: 0,
            fuzz: 0,
            loss: 0,
            glitch_freq: 0,
            glitch_gain: PARAM_SCALE,
            delay_select: 0,
        }
    }
}

impl Default for SpectralDecayParameters {
    fn default() -> (r: Self)
        ensures
            r == SpectralDecayParameters::spec_default(),
            r.valid(),
    {
        SpectralDecayParameters {
            grain_select: 0,
            fuzz: 0,
            loss: 0,
            glitch_freq: 0,
            glitch_gain: PARAM_SCALE,
            delay_select: 0,
        }
    }
}

/// The control state of the streaming grain engine: which ladder entry is
/// active, the hop cycle position, and the pinned compensation delay. The
/// sample-processing stages read this state; they never change it behind its
/// back.
pub struct SpectralDecay {
    sizes: Vec<usize>,
    grain_index: usize,
    grain_size: usize,
    hop: usize,
    delay_comp: usize,
    offset: usize,
    params: SpectralDecayParameters,
}

impl SpectralDecay {
    pub closed spec fn spec_sizes(&self) -> Seq<usize> {
        self.sizes@
    }

    pub closed spec fn spec_grain_index(&self) -> int {
        self.grain_index as int
    }

    pub closed spec fn spec_grain_size(&self) -> int {
        self.grain_size as int
    }

    pub closed spec fn spec_hop(&self) -> int {
        self.hop as int
    }

    pub closed spec fn spec_delay_comp(&self) -> int {
        self.delay_comp as int
    }

    pub closed spec fn spec_offset(&self) -> int {
        self.offset as int
    }

    pub closed spec fn spec_params(&self) -> SpectralDecayParameters {
        self.params
    }

    /// Discretisation of a control value into a ladder index:
    /// `min(floor(select * len / scale), len - 1)`.
    pub open spec fn spec_select(&self, select: u32) -> int {
        let k = self.spec_sizes().len() as int;
        let idx = (select * k) / (PARAM_SCALE as int);
        if idx < k - 1 {
            idx
        } else {
            k - 1
        }
    }

    /// Total latency between an input sample and its processed output:
    /// the active grain plus one hop, or the pinned compensation delay if
    /// that is larger.
    pub open spec fn spec_delay(&self) -> int {
        let base = self.spec_grain_size() + self.spec_hop();
        if base >= self.spec_delay_comp() {
            base
        } else {
            self.spec_delay_comp()
        }
    }

    pub open spec fn wf(&self) -> bool {
        &&& 1 <= self.spec_sizes().len()
        &&& forall|i: int|
            0 <= i < self.spec_sizes().len() ==> (#[trigger] self.spec_sizes()[i]) % 4 == 0 && 0
                < self.spec_sizes()[i] <= MAX_GRAIN_SIZE
        &&& forall|i: int, j: int|
            0 <= i <= j < self.spec_sizes().len() ==> self.spec_sizes()[i]
                <= self.spec_sizes()[j]
        &&& 0 <= self.spec_grain_index() < self.spec_sizes().len()
        &&& self.spec_grain_index() == self.spec_select(self.spec_params().grain_select)
        &&& self.spec_grain_size() == self.spec_sizes()[self.spec_grain_index()]
        &&& self.spec_hop() == self.spec_grain_size() / 4
        &&& 0 <= self.spec_offset() < self.spec_hop()
        &&& exists|j: int|
            0 <= j < self.spec_sizes().len() && self.spec_delay_comp() == 5 * (
            (#[trigger] self.spec_sizes()[j]) / 4)
        &&& self.spec_params().valid()
    }

    /// Build an engine over a grain-size ladder: a non-empty, non-decreasing
    /// list of positive sizes, each divisible by four.
    pub fn new(grain_sizes: &[usize]) -> (r: Self)
        requires
            grain_sizes@.len() >= 1,
            forall|i: int|
                0 <= i < grain_sizes@.len() ==> (#[trigger] grain_sizes@[i]) % 4 == 0 && 0
                    < grain_sizes@[i] <= MAX_GRAIN_SIZE,
            forall|i: int, j: int|
                0 <= i <= j < grain_sizes@.len() ==> grain_sizes@[i] <= grain_sizes@[j],
        ensures
            r.wf(),
            r.spec_sizes() == grain_sizes@,
            r.spec_grain_index() == 0,
            r.spec_grain_size() == grain_sizes@[0],
            r.spec_hop() == grain_sizes@[0] / 4,
            r.spec_offset() == 0,
            r.spec_delay_comp() == 5 * (grain_sizes@[0] / 4),
            r.spec_params() == SpectralDecayParameters::spec_default(),
    {
        let sizes = vstd::slice::slice_to_vec(grain_sizes);
        let s0 = *vstd::slice::slice_index_get(grain_sizes, 0);
        let r = SpectralDecay {
            sizes,
            grain_index: 0,
            grain_size: s0,
            hop: s0 / 4,
            delay_comp: s0 * 5 / 4,
            offset: 0,
            params: Default::default(),
        };
        proof {
            assert(s0 * 5 / 4 == 5 * (s0 as int / 4) && 1 <= s0 as int / 4) by (nonlinear_arith)
                requires
                    s0 % 4 == 0,
                    0 < s0 <= MAX_GRAIN_SIZE,
            ;
            assert(r.spec_sizes()[0] == s0);
            assert(r.spec_delay_comp() == 5 * (r.spec_sizes()[0] / 4));
            assert(r.spec_params().grain_select == 0);
            let k = r.spec_sizes().len() as int;
            assert(0 * k == 0);
            assert((0 as u32 * k) / (PARAM_SCALE as int) == 0);
            assert(r.spec_select(0) == 0);
            assert(r.spec_grain_index() == r.spec_select(r.spec_params().grain_select));
            assert(0 <= r.spec_offset() < r.spec_hop());
            assert(r.spec_params().valid());
        }
        r
    }

    fn select_to_index(&self, select: u32) -> (r: usize)
        requires
            self.spec_sizes().len() >= 1,
            select <= PARAM_SCALE,
        ensures
            r as int == self.spec_select(select),
            r < self.spec_sizes().len(),
    {
        let k = self.sizes.len();
        proof {
            assert(select as int * k as int <= 0x10000 * 0xffff_ffff_ffff_ffffu64 && select as int
                * k as int / (PARAM_SCALE as int) <= k as int) by (nonlinear_arith)
                requires
                    select <= PARAM_SCALE,
                    1 <= k as int <= 0xffff_ffff_ffff_ffffu64,
            ;
        }
        let idx128: u128 = (select as u128) * (k as u128) / (PARAM_SCALE as u128);
        let idx = idx128 as usize;
        if idx < k - 1 {
            idx
        } else {
            k - 1
        }
    }

    /// Total sample latency, `max(grain_size + hop, delay_comp)`.
    pub fn delay(&self) -> (r: usize)
        requires
            self.wf(),
        ensures
            r as int == self.spec_delay(),
    {
        let base = self.grain_size + self.hop;
        if base >= self.delay_comp {
            base
        } else {
            self.delay_comp
        }
    }

    pub fn grain_size(&self) -> (r: usize)
        ensures
            r as int == self.spec_grain_size(),
    {
        self.grain_size
    }

    pub fn grain_index(&self) -> (r: usize)
        ensures
            r as int == self.spec_grain_index(),
    {
        self.grain_index
    }

    pub fn hop(&self) -> (r: usize)
        ensures
            r as int == self.spec_hop(),
    {
        self.hop
    }

    pub fn offset(&self) -> (r: usize)
        ensures
            r as int == self.spec_offset(),
    {
        self.offset
    }

    /// Apply a new parameter set, evaluated against the previously stored
    /// one. A change of `grain_select` that lands on a different ladder index
    /// switches the active grain: a jump of more than a factor of two resets
    /// the hop phase, a smaller one carries the phase fraction
    /// `offset / hop` over to the new hop, rounding down. A change of
    /// `delay_select` re-pins the compensation delay to the 5/4 latency of
    /// the selected ladder entry, independent of the active grain. All other
    /// values are stored verbatim and take effect at the next grain.
    pub fn set_params(&mut self, params: SpectralDecayParameters)
        requires
            old(self).wf(),
            params.valid(),
        ensures
            final(self).wf(),
            final(self).spec_sizes() == old(self).spec_sizes(),
            final(self).spec_params() == params,
            ({
                let e = *old(self);
                let idx = e.spec_select(params.grain_select);
                if params.grain_select != e.spec_params().grain_select && idx
                    != e.spec_grain_index() {
                    let ns = e.spec_sizes()[idx] as int;
                    let os = e.spec_grain_size();
                    &&& final(self).spec_grain_index() == idx
                    &&& final(self).spec_grain_size() == ns
                    &&& final(self).spec_hop() == ns / 4
                    &&& final(self).spec_offset() == (if ns > 2 * os || os > 2 * ns {
                        0
                    } else {
                        e.spec_offset() * (ns / 4) / e.spec_hop()
                    })
                } else {
                    &&& final(self).spec_grain_index() == e.spec_grain_index()
                    &&& final(self).spec_grain_size() == e.spec_grain_size()
                    &&& final(self).spec_hop() == e.spec_hop()
                    &&& final(self).spec_offset() == e.spec_offset()
                }
            }),
            ({
                let e = *old(self);
                if params.delay_select != e.spec_params().delay_select {
                    final(self).spec_delay_comp() == 5 * (e.spec_sizes()[e.spec_select(
                        params.delay_select,
                    )] as int / 4)
                } else {
                    final(self).spec_delay_comp() == e.spec_delay_comp()
                }
            }),
    {
        if params.grain_select != self.params.grain_select {
            let grain_index = self.select_to_index(params.grain_select);
            if self.grain_index != grain_index {
                self.grain_index = grain_index;
                let prev_grain_size = self.grain_size;
                self.grain_size = self.sizes[grain_index];
                let new_hop = self.grain_size / 4;
                if self.grain_size > 2 * prev_grain_size || prev_grain_size > 2
                    * self.grain_size {
                    // the sizes differ by more than a factor of two: reset
                    self.offset = 0;
                    self.hop = new_hop;
                } else {
                    // within a factor of two: carry the hop phase over
                    proof {
                        let off = self.offset as int;
                        let oh = self.hop as int;
                        assert(off * (new_hop as int) <= 0x4000000 * 0x4000000 && off * (
                        new_hop as int) / oh < new_hop as int) by (nonlinear_arith)
                            requires
                                0 <= off < oh,
                                oh <= 0x4000000,
                                1 <= new_hop as int <= 0x4000000,
                        ;
                    }
                    let prod: u128 = (self.offset as u128) * (new_hop as u128);
                    let new_offset = (prod / (self.hop as u128)) as usize;
                    self.hop = new_hop;
                    self.offset = new_offset;
                }
            }
        }
        if params.delay_select != self.params.delay_select {
            let delay_index = self.select_to_index(params.delay_select);
            self.delay_comp = self.sizes[delay_index] / 4 * 5;
        }
        self.params = params;
    }
}

/// The schedule that one streaming call follows for `len` incoming samples:
/// the first chunk completes the current hop cycle, later chunks advance hop
/// by hop, and each chunk is marked with whether it lands exactly on a hop
/// boundary and so triggers one grain of processing.
pub open spec fn chunk_plan(offset: int, hop: int, len: int) -> Seq<(usize, bool)>
    decreases len,
{
    if len <= 0 || !(0 <= offset < hop) {
        Seq::empty()
    } else {
        let l = if hop - offset <= len {
            hop - offset
        } else {
            len
        };
        let fire = offset + l == hop;
        seq![(l as usize, fire)] + chunk_plan(
            if fire {
                0
            } else {
                offset + l
            },
            hop,
            len - l,
        )
    }
}

/// The samples covered by a chunk schedule.
pub open spec fn chunk_total(cs: Seq<(usize, bool)>) -> int
    decreases cs.len(),
{
    if cs.len() == 0 {
        0
    } else {
        cs[0].0 + chunk_total(cs.skip(1))
    }
}

/// The grains a chunk schedule triggers.
pub open spec fn chunk_fires(cs: Seq<(usize, bool)>) -> int
    decreases cs.len(),
{
    if cs.len() == 0 {
        0
    } else {
        (if cs[0].1 {
            1int
        } else {
            0int
        }) + chunk_fires(cs.skip(1))
    }
}

/// Law: a chunk schedule covers its block exactly, and triggers one grain
/// for every completed hop cycle — `(offset + len) / hop` of them.
pub proof fn lemma_chunk_plan_covers(offset: int, hop: int, len: int)
    requires
        0 <= offset < hop,
        hop <= usize::MAX,
        0 <= len <= usize::MAX,
    ensures
        chunk_total(chunk_plan(offset, hop, len)) == len,
        chunk_fires(chunk_plan(offset, hop, len)) == (offset + len) / hop,
    decreases len,
{
    let cs = chunk_plan(offset, hop, len);
    if len == 0 {
        vstd::arithmetic::div_mod::lemma_basic_div(offset, hop);
    } else {
        let l = if hop - offset <= len {
            hop - offset
        } else {
            len
        };
        let fire = offset + l == hop;
        let next = if fire {
            0int
        } else {
            offset + l
        };
        lemma_chunk_plan_covers(next, hop, len - l);
        assert(cs[0] == (l as usize, fire));
        assert(cs[0].0 == l);
        assert(cs.skip(1) =~= chunk_plan(next, hop, len - l));
        if fire {
            vstd::arithmetic::div_mod::lemma_div_plus_one(offset + len - hop, hop);
        } else {
            vstd::arithmetic::div_mod::lemma_basic_div(offset + len, hop);
        }
    }
}

impl SpectralDecay {
    /// Advance the hop cycle over `len` incoming samples and hand back the
    /// chunk schedule the caller is to follow: for each entry in order, slide
    /// that many samples through the input and output buffers, then process
    /// one grain when the entry is marked. Only the hop phase changes here.
    pub fn process_plan(&mut self, len: usize) -> (chunks: Vec<(usize, bool)>)
        requires
            old(self).wf(),
        ensures
            final(self).wf(),
            chunks@ == chunk_plan(old(self).spec_offset(), old(self).spec_hop(), len as int),
            final(self).spec_offset() == (old(self).spec_offset() + len) % old(self).spec_hop(),
            final(self).spec_sizes() == old(self).spec_sizes(),
            final(self).spec_grain_index() == old(self).spec_grain_index(),
            final(self).spec_grain_size() == old(self).spec_grain_size(),
            final(self).spec_hop() == old(self).spec_hop(),
            final(self).spec_delay_comp() == old(self).spec_delay_comp(),
            final(self).spec_params() == old(self).spec_params(),
    {
        let mut chunks: Vec<(usize, bool)> = Vec::new();
        let mut remaining = len;
        while remaining > 0
            invariant
                self.wf(),
                remaining <= len,
                self.spec_sizes() == old(self).spec_sizes(),
                self.spec_grain_index() == old(self).spec_grain_index(),
                self.spec_grain_size() == old(self).spec_grain_size(),
                self.spec_hop() == old(self).spec_hop(),
                self.spec_delay_comp() == old(self).spec_delay_comp(),
                self.spec_params() == old(self).spec_params(),
                chunk_plan(old(self).spec_offset(), old(self).spec_hop(), len as int) == chunks@
                    + chunk_plan(self.spec_offset(), self.spec_hop(), remaining as int),
                (old(self).spec_offset() + len) % old(self).spec_hop() == (self.spec_offset()
                    + remaining) % self.spec_hop(),
            decreases remaining,
        {
            let ghost pre = *self;
            let ghost pre_chunks = chunks@;
            let ghost pre_remaining = remaining as int;
            let avail = self.hop - self.offset;
            let l = if avail <= remaining {
                avail
            } else {
                remaining
            };
            let fire = self.offset + l == self.hop;
            chunks.push((l, fire));
            if fire {
                self.offset = 0;
            } else {
                self.offset = self.offset + l;
            }
            remaining = remaining - l;
            proof {
                let h = pre.spec_hop();
                assert(chunk_plan(pre.spec_offset(), h, pre_remaining) == seq![(l, fire)]
                    + chunk_plan(self.spec_offset(), h, remaining as int));
                assert(pre_chunks + (seq![(l, fire)] + chunk_plan(
                    self.spec_offset(),
                    h,
                    remaining as int,
                )) =~= chunks@ + chunk_plan(self.spec_offset(), h, remaining as int));
                if fire {
                    vstd::arithmetic::div_mod::lemma_mod_add_multiples_vanish(
                        remaining as int,
                        h,
                    );
                }
            }
        }
        proof {
            vstd::arithmetic::div_mod::lemma_small_mod(
                self.spec_offset() as nat,
                self.spec_hop() as nat,
            );
            assert(chunks@ + chunk_plan(self.spec_offset(), self.spec_hop(), 0) =~= chunks@);
        }
        chunks
    }
}

/// Law: a grain switch within a factor of two preserves the hop-phase
/// fraction `offset / hop` up to rounding: the carried-over offset is the
/// floor of `old_offset * new_hop / old_hop`, so it under-approximates the
/// exact scaled phase by less than one old hop. (A larger jump resets the
/// offset to zero; that case is stated directly by `set_params`.)
pub proof fn lemma_grain_switch_continuity(old_hop: int, new_hop: int, old_offset: int)
    requires
        1 <= old_hop,
        1 <= new_hop,
        0 <= old_offset < old_hop,
    ensures
        ({
            let new_offset = old_offset * new_hop / old_hop;
            &&& 0 <= new_offset < new_hop
            &&& new_offset * old_hop <= old_offset * new_hop
            &&& old_offset * new_hop < (new_offset + 1) * old_hop
        }),
{
    let new_offset = old_offset * new_hop / old_hop;
    assert(0 <= new_offset < new_hop && new_offset * old_hop <= old_offset * new_hop
        && old_offset * new_hop < (new_offset + 1) * old_hop) by (nonlinear_arith)
        requires
            1 <= old_hop,
            1 <= new_hop,
            0 <= old_offset < old_hop,
            new_offset == old_offset * new_hop / old_hop,
    ;
}

/// Law: pinning the compensation delay to the largest ladder entry makes the
/// total delay equal to that of an engine built from that largest size alone,
/// whatever grain is actively processing. (`spec_select` applied to a control
/// value of `PARAM_SCALE` picks the last ladder entry, so `set_params` with
/// `delay_select == PARAM_SCALE` establishes the premise on `delay_comp`.)
pub proof fn lemma_delay_compensation(a: SpectralDecay, b: SpectralDecay)
    requires
        a.wf(),
        b.wf(),
        a.spec_delay_comp() == 5 * (a.spec_sizes()[a.spec_sizes().len() - 1] as int / 4),
        b.spec_sizes() =~= seq![a.spec_sizes()[a.spec_sizes().len() - 1]],
    ensures
        a.spec_delay() == b.spec_delay(),
        a.spec_delay() == 5 * (a.spec_sizes()[a.spec_sizes().len() - 1] as int / 4),
{
    let last = a.spec_sizes()[a.spec_sizes().len() - 1] as int;
    let gs = a.spec_grain_size();
    assert(gs <= last);
    assert(gs % 4 == 0 && last % 4 == 0);
    assert(gs + gs / 4 <= 5 * (last / 4)) by (nonlinear_arith)
        requires
            gs % 4 == 0,
            last % 4 == 0,
            0 < gs <= last,
    ;
    assert(b.spec_grain_size() == last);
    assert(b.spec_delay_comp() == 5 * (last / 4));
    assert(last + last / 4 == 5 * (last / 4)) by (nonlinear_arith)
        requires
            last % 4 == 0,
            0 < last,
    ;
}

/// `spec_select` applied to the full-scale control value picks the last
/// ladder entry.
pub proof fn lemma_select_full_scale(e: SpectralDecay)
    requires
        e.spec_sizes().len() >= 1,
    ensures
        e.spec_select(PARAM_SCALE) == e.spec_sizes().len() - 1,
{
    let k = e.spec_sizes().len() as int;
    assert(PARAM_SCALE as int * k / (PARAM_SCALE as int) == k) by (nonlinear_arith)
        requires
            k >= 1,
    ;
}

} // verus!
