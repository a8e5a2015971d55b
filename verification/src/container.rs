use vstd::prelude::*;
use std::collections::HashMap;
use crate::element::{base_of, height_of, width_of, with_base, Base, Element, UIElement};
use crate::geometry::{
    region_contains, region_intersects, region_raw, region_wf, scales_wf, screen_region,
    spec_contains, spec_intersects, spec_region_raw, spec_scales_for, spec_screen, HAttach, Region,
    Scale, Scales, VAttach,
};
use crate::refs::ElementRef;

verus! {

broadcast use vstd::std_specs::hash::group_hash_axioms;

/// How authored coordinates relate to viewport pixels: `Scaled` keeps
/// the virtual 854 x 480 space covering the whole viewport, `Unscaled`
/// applies one fixed factor on both axes regardless of viewport size.
pub enum Mode {
    Scaled,
    Unscaled(Scale),
}

/// The scale factors a mode yields for a viewport.
pub open spec fn spec_mode_scales(m: Mode, width: u16, height: u16) -> Scales {
    match m {
        Mode::Scaled => spec_scales_for(true, Scale { num: 1, den: 1 }, width, height),
        Mode::Unscaled(s) => spec_scales_for(false, s, width, height),
    }
}

pub open spec fn mode_wf(m: Mode) -> bool {
    match m {
        Mode::Scaled => true,
        Mode::Unscaled(s) => s.den >= 1,
    }
}

/// The set of `u64` values below `n` has exactly `n` members.
proof fn lemma_u64_range_card(n: int)
    requires
        0 <= n <= 0x1_0000_0000_0000_0000,
    ensures
        Set::new(|x: u64| (x as int) < n).finite(),
        Set::new(|x: u64| (x as int) < n).len() == n,
    decreases n,
{
    if n == 0 {
        assert(Set::new(|x: u64| (x as int) < 0) =~= Set::<u64>::empty());
    } else {
        lemma_u64_range_card(n - 1);
        assert(Set::new(|x: u64| (x as int) < n) =~= Set::new(|x: u64| (x as int) < n - 1).insert(
            (n - 1) as u64,
        ));
    }
}

/// Relies on rand::random: an independently drawn random `u64`;
/// nothing is assumed of its value.
#[verifier::external_body]
fn random_key() -> u64 {
    rand::random()
}

/// One element to draw this frame: where it goes and whether it (or an
/// ancestor) changed since it was last drawn.
pub struct DrawCommand {
    pub id: u64,
    pub region: Region,
    pub dirty: bool,
}

/// What a frame tick asks of the host: if `update_all` is set the
/// renderer's resource generation changed and every element's update
/// hook must run; `draws` lists the visible elements in insertion
/// order, each with its resolved region.
pub struct TickOutput {
    pub update_all: bool,
    pub draws: Vec<DrawCommand>,
}

/// One hover transition to dispatch: the element's hover callbacks
/// (fetched with `Container::hover_funcs_of`) are invoked with `over`
/// (true on enter, false on exit).
#[derive(Clone, Copy, PartialEq, Eq, Structural, Debug)]
pub struct HoverCall {
    pub id: u64,
    pub over: bool,
}

/// Owns the elements: an unordered keyed store plus the insertion
/// order, which fixes both draw order and (reversed) hit-test priority.
pub struct Container {
    pub mode: Mode,
    elements: HashMap<u64, Element>,
    elements_list: Vec<u64>,
    version: u64,
    last_scales: Scales,
    last_width: u16,
    last_height: u16,
}

/// The element's absolute region: the parent chain is resolved up to
/// the screen, then one attachment step places the element inside it.
/// `None` when the chain is broken (a parent no longer stored, a cycle
/// outlasting the fuel) or a coordinate leaves the representable range.
pub open spec fn spec_elem_region(
    m: Map<u64, Element>,
    e: Element,
    sc: Scales,
    fuel: nat,
) -> Option<Region>
    decreases fuel,
{
    let b = base_of(e);
    match b.parent {
        None => spec_region_raw(
            width_of(e) as int,
            height_of(e) as int,
            b.x as int,
            b.y as int,
            b.h_attach,
            b.v_attach,
            sc,
            spec_screen(sc),
        ),
        Some(p) => if fuel == 0 || !m.contains_key(p) {
            None
        } else {
            match spec_elem_region(m, m[p], sc, (fuel - 1) as nat) {
                None => None,
                Some(sup) => spec_region_raw(
                    width_of(e) as int,
                    height_of(e) as int,
                    b.x as int,
                    b.y as int,
                    b.h_attach,
                    b.v_attach,
                    sc,
                    sup,
                ),
            }
        },
    }
}

/// Effective dirtiness: the element's own flag, or any ancestor's,
/// walking the parent chain while it stays stored and fuel lasts.
pub open spec fn spec_eff_dirty(m: Map<u64, Element>, e: Element, fuel: nat) -> bool
    decreases fuel,
{
    base_of(e).dirty || (match base_of(e).parent {
        Some(p) => fuel > 0 && m.contains_key(p) && spec_eff_dirty(m, m[p], (fuel - 1) as nat),
        None => false,
    })
}

/// All elements marked dirty, as a tick does when the scale factors,
/// the viewport or the renderer generation changed.
pub open spec fn spec_marked(m: Map<u64, Element>, mark: bool) -> Map<u64, Element> {
    if mark {
        Map::new(
            |k: u64| m.contains_key(k),
            |k: u64| with_base(m[k], Base { dirty: true, ..base_of(m[k]) }),
        )
    } else {
        m
    }
}

/// What a tick computes for one stored element: its region and
/// effective dirtiness if it is visible (drawable, resolvable, and
/// overlapping the screen), nothing otherwise.
pub open spec fn spec_info(m: Map<u64, Element>, id: u64, sc: Scales, fuel: nat) -> Option<
    (Region, bool),
> {
    if m.contains_key(id) && base_of(m[id]).should_draw {
        match spec_elem_region(m, m[id], sc, fuel) {
            Some(rg) => if spec_intersects(rg, spec_screen(sc)) {
                Some((rg, spec_eff_dirty(m, m[id], fuel)))
            } else {
                None
            },
            None => None,
        }
    } else {
        None
    }
}

/// A stored element after a tick: visible elements take their effective
/// dirty flag, the rest keep their (possibly just marked) state.
pub open spec fn spec_tick_elem(m: Map<u64, Element>, id: u64, sc: Scales, fuel: nat) -> Element {
    match spec_info(m, id, sc, fuel) {
        Some(info) => with_base(m[id], Base { dirty: info.1, ..base_of(m[id]) }),
        None => m[id],
    }
}

/// The draw commands of one tick: the visible elements in insertion
/// order, with their regions and effective dirty flags.
pub open spec fn spec_draw_seq(m: Map<u64, Element>, ord: Seq<u64>, sc: Scales, fuel: nat) -> Seq<
    DrawCommand,
>
    decreases ord.len(),
{
    if ord.len() == 0 {
        Seq::empty()
    } else {
        let rest = spec_draw_seq(m, ord.drop_last(), sc, fuel);
        match spec_info(m, ord.last(), sc, fuel) {
            Some(info) => rest.push(
                DrawCommand { id: ord.last(), region: info.0, dirty: info.1 },
            ),
            None => rest,
        }
    }
}

/// Whether a click at the given rational point (in scaled units) hits
/// the element: it must be stored, have click callbacks, and its region
/// must resolve and contain the point.
pub open spec fn spec_click_eligible(
    m: Map<u64, Element>,
    id: u64,
    sc: Scales,
    mxn: int,
    mxd: int,
    myn: int,
    myd: int,
    fuel: nat,
) -> bool {
    &&& m.contains_key(id)
    &&& base_of(m[id]).click_funcs.len() > 0
    &&& match spec_elem_region(m, m[id], sc, fuel) {
        Some(rg) => spec_contains(rg, mxn, mxd, myn, myd),
        None => false,
    }
}

/// The click target: the last element in insertion order (the topmost
/// drawn) that a click at the point hits.
pub open spec fn spec_click_target(
    m: Map<u64, Element>,
    ord: Seq<u64>,
    sc: Scales,
    mxn: int,
    mxd: int,
    myn: int,
    myd: int,
    fuel: nat,
) -> Option<u64>
    decreases ord.len(),
{
    if ord.len() == 0 {
        None
    } else if spec_click_eligible(m, ord.last(), sc, mxn, mxd, myn, myd, fuel) {
        Some(ord.last())
    } else {
        spec_click_target(m, ord.drop_last(), sc, mxn, mxd, myn, myd, fuel)
    }
}

/// Whether the pointer is over the element: its region resolves and
/// contains the point.
pub open spec fn spec_over(
    m: Map<u64, Element>,
    id: u64,
    sc: Scales,
    mxn: int,
    mxd: int,
    myn: int,
    myd: int,
    fuel: nat,
) -> bool {
    match spec_elem_region(m, m[id], sc, fuel) {
        Some(rg) => spec_contains(rg, mxn, mxd, myn, myd),
        None => false,
    }
}

/// The hover transitions one dispatch emits: every stored element with
/// hover callbacks is examined in reverse insertion order, and those
/// whose hover state changes contribute one call.
pub open spec fn spec_hover_calls(
    m: Map<u64, Element>,
    ord: Seq<u64>,
    sc: Scales,
    mxn: int,
    mxd: int,
    myn: int,
    myd: int,
    fuel: nat,
) -> Seq<HoverCall>
    decreases ord.len(),
{
    if ord.len() == 0 {
        Seq::empty()
    } else {
        let id = ord.last();
        let rest = spec_hover_calls(m, ord.drop_last(), sc, mxn, mxd, myn, myd, fuel);
        if m.contains_key(id) && base_of(m[id]).hover_funcs.len() > 0 {
            let over = spec_over(m, id, sc, mxn, mxd, myn, myd, fuel);
            if base_of(m[id]).hovered != over {
                seq![HoverCall { id, over }] + rest
            } else {
                rest
            }
        } else {
            rest
        }
    }
}

/// A stored element after a hover dispatch: elements with hover
/// callbacks record the new pointer state, the rest are untouched.
pub open spec fn spec_hover_elem(
    m: Map<u64, Element>,
    id: u64,
    sc: Scales,
    mxn: int,
    mxd: int,
    myn: int,
    myd: int,
    fuel: nat,
) -> Element {
    if base_of(m[id]).hover_funcs.len() > 0 {
        with_base(
            m[id],
            Base { hovered: spec_over(m, id, sc, mxn, mxd, myn, myd, fuel), ..base_of(m[id]) },
        )
    } else {
        m[id]
    }
}

impl Container {
    /// The display mode.
    pub closed spec fn mode_spec(&self) -> Mode {
        self.mode
    }

    /// Switch between aspect-scaled and fixed-factor display.
    pub fn set_mode(&mut self, m: Mode)
        requires
            old(self).wf(),
            mode_wf(m),
        ensures
            final(self).wf(),
            final(self).mode_spec() == m,
            final(self).elems() == old(self).elems(),
            final(self).order() == old(self).order(),
            final(self).gen() == old(self).gen(),
            final(self).cached_scales() == old(self).cached_scales(),
            final(self).cached_width() == old(self).cached_width(),
            final(self).cached_height() == old(self).cached_height(),
    {
        self.mode = m;
    }

    /// The keyed store.
    pub closed spec fn elems(&self) -> Map<u64, Element> {
        self.elements@
    }

    /// The insertion order of the stored identities.
    pub closed spec fn order(&self) -> Seq<u64> {
        self.elements_list@
    }

    /// The renderer resource generation seen by the previous tick.
    pub closed spec fn gen(&self) -> u64 {
        self.version
    }

    pub closed spec fn cached_scales(&self) -> Scales {
        self.last_scales
    }

    pub closed spec fn cached_width(&self) -> u16 {
        self.last_width
    }

    pub closed spec fn cached_height(&self) -> u16 {
        self.last_height
    }

    /// The store and the insertion order hold exactly the same
    /// identities, each once, and the mode is usable.
    pub closed spec fn wf(&self) -> bool {
        &&& self.elements_list@.no_duplicates()
        &&& forall|i: int|
            0 <= i < self.elements_list@.len() ==> self.elements@.contains_key(
                #[trigger] self.elements_list@[i],
            )
        &&& forall|k: u64|
            #[trigger] self.elements@.contains_key(k) ==> self.elements_list@.contains(k)
        &&& mode_wf(self.mode)
    }

    /// Whether a tick at this viewport and generation re-marks every
    /// element dirty.
    pub open spec fn tick_changed(&self, width: u16, height: u16, version: u64) -> bool {
        ||| spec_mode_scales(self.mode_spec(), width, height) != self.cached_scales()
        ||| width != self.cached_width()
        ||| height != self.cached_height()
        ||| version != self.gen()
    }

    /// Every stored parent reference names a live element. Removal can
    /// break this; keeping it intact is the caller's obligation, and the
    /// frame and dispatch entry points demand it rather than resolve
    /// against a stale chain.
    pub open spec fn parents_ok(&self) -> bool {
        forall|k: u64|
            #[trigger] self.elems().contains_key(k) ==> match base_of(self.elems()[k]).parent {
                Some(p) => self.elems().contains_key(p),
                None => true,
            }
    }

    /// Whether an identity is live. Lookups, removals and mutations
    /// demand a live identity; callers that are unsure test here first.
    pub fn contains_raw(&self, id: u64) -> (b: bool)
        ensures
            b == self.elems().contains_key(id),
    {
        self.elements.contains_key(&id)
    }

    /// Whether every stored parent reference is live: the executable
    /// check for `parents_ok`, for hosts that must verify the graph
    /// before a frame or a dispatch and treat a broken chain as fatal.
    pub fn parents_intact(&self) -> (b: bool)
        requires
            self.wf(),
        ensures
            b == self.parents_ok(),
    {
        let n = self.elements_list.len();
        let mut i: usize = 0;
        while i < n
            invariant
                self.wf(),
                n == self.elements_list@.len(),
                i <= n,
                forall|j: int|
                    0 <= j < i ==> (match base_of(
                        self.elems()[#[trigger] self.elements_list@[j]],
                    ).parent {
                        Some(p) => self.elems().contains_key(p),
                        None => true,
                    }),
            decreases n - i,
        {
            let id = self.elements_list[i];
            proof {
                assert(self.elements@.contains_key(id));
            }
            let e = self.elements.get(&id).unwrap();
            match e.base().parent {
                Some(p) => {
                    if !self.elements.contains_key(&p) {
                        return false;
                    }
                },
                None => {},
            }
            i = i + 1;
        }
        proof {
            assert forall|k: u64| #[trigger] self.elems().contains_key(k) implies (match base_of(
                self.elems()[k],
            ).parent {
                Some(p) => self.elems().contains_key(p),
                None => true,
            }) by {
                assert(self.elements_list@.contains(k));
                let w = choose|w: int|
                    0 <= w < self.elements_list@.len() && self.elements_list@[w] == k;
                assert(self.elements_list@[w] == k);
            }
        }
        true
    }

    pub fn new() -> (c: Container)
        ensures
            c.wf(),
            c.elems() == Map::<u64, Element>::empty(),
            c.order() == Seq::<u64>::empty(),
            c.mode_spec() is Scaled,
            c.gen() == 0xFFFF,
            c.cached_scales() == (Scales { xn: 0, xd: 0, yn: 0, yd: 0 }),
            c.cached_width() == 0,
            c.cached_height() == 0,
    {
        Container {
            mode: Mode::Scaled,
            elements: HashMap::new(),
            elements_list: Vec::new(),
            version: 0xFFFF,
            last_scales: Scales { xn: 0, xd: 0, yn: 0, yd: 0 },
            last_width: 0,
            last_height: 0,
        }
    }

    /// Insert a widget under a fresh random identity, retrying until
    /// the key collides with no live element; the new element is
    /// appended to the order, so it draws last and hit-tests first.
    pub fn add<T: UIElement>(&mut self, e: T) -> (r: ElementRef<T>)
        requires
            old(self).wf(),
            old(self).order().len() < 0xFFFF_FFFF_FFFF_FFFFu64,
        ensures
            final(self).wf(),
            !old(self).elems().contains_key(r.id()),
            final(self).elems() == old(self).elems().insert(r.id(), e.wrap_spec()),
            final(self).order() == old(self).order().push(r.id()),
            final(self).mode_spec() == old(self).mode_spec(),
            final(self).gen() == old(self).gen(),
            final(self).cached_scales() == old(self).cached_scales(),
            final(self).cached_width() == old(self).cached_width(),
            final(self).cached_height() == old(self).cached_height(),
    {
        let mut k = random_key();
        let mut tries: u32 = 64;
        while tries > 0 && self.elements.contains_key(&k)
            invariant
                old(self).wf(),
                self == old(self),
            decreases tries,
        {
            k = random_key();
            tries = tries - 1;
        }
        if self.elements.contains_key(&k) {
            // A run of colliding draws; fall back to the smallest key
            // that is not in use. One exists: there are more candidate
            // keys than stored elements.
            let ghost n = self.elements_list@.len() as int;
            k = 0;
            while self.elements.contains_key(&k)
                invariant
                    old(self).wf(),
                    self == old(self),
                    n == self.elements_list@.len() as int,
                    n < 0xFFFF_FFFF_FFFF_FFFF,
                    k <= n,
                    forall|j: u64| j < k ==> self.elements@.contains_key(j),
                decreases n - k,
            {
                proof {
                    if k == n {
                        let cand = Set::new(|x: u64| (x as int) < n + 1);
                        lemma_u64_range_card(n + 1);
                        assert forall|x: u64| cand.contains(x) implies self.elements@.dom().contains(
                            x,
                        ) by {
                            if x < k {
                            } else {
                                assert(x == k);
                            }
                        }
                        assert(cand.len() == n + 1);
                        assert(self.elements@.dom().finite());
                        vstd::set_lib::lemma_len_subset(cand, self.elements@.dom());
                        assert(cand.len() <= self.elements@.dom().len());
                        let lst = self.elements_list@;
                        assert(lst.no_duplicates());
                        lst.unique_seq_to_set();
                        assert(lst.to_set().len() == lst.len());
                        assert(lst.len() == n);
                        assert forall|x: u64| self.elements@.dom().contains(x)
                            implies lst.to_set().contains(x) by {
                            assert(self.elements_list@.contains(x));
                        }
                        assert forall|x: u64| lst.to_set().contains(x)
                            implies self.elements@.dom().contains(x) by {
                            assert(self.elements_list@.contains(x));
                            let w = choose|w: int|
                                0 <= w < self.elements_list@.len() && self.elements_list@[w] == x;
                            assert(self.elements@.contains_key(self.elements_list@[w]));
                        }
                        assert(self.elements@.dom() =~= lst.to_set());
                        assert(false);
                    }
                }
                k = k + 1;
            }
        }
        proof {
            assert(!self.elements@.contains_key(k));
            assert(!self.elements_list@.contains(k));
            assert(self.elements_list@.push(k).no_duplicates());
        }
        self.elements.insert(k, e.wrap());
        self.elements_list.push(k);
        proof {
            assert forall|i: int| 0 <= i < self.elements_list@.len() implies self.elements@.contains_key(
                #[trigger] self.elements_list@[i],
            ) by {
                if i < self.elements_list@.len() - 1 {
                    assert(self.elements_list@[i] == old(self).elements_list@[i]);
                }
            }
            assert forall|k2: u64| #[trigger] self.elements@.contains_key(k2) implies self.elements_list@.contains(
                k2,
            ) by {
                if k2 != k {
                    assert(old(self).elements_list@.contains(k2));
                    let i = choose|i: int|
                        0 <= i < old(self).elements_list@.len() && old(self).elements_list@[i] == k2;
                    assert(self.elements_list@[i] == k2);
                }
                if k2 == k {
                    assert(self.elements_list@.last() == k);
                }
            }
        }
        ElementRef::make(k)
    }

    /// Look the stored widget up under a typed handle. Looking up an
    /// identity that is not live (removed, or never inserted) is
    /// programmer misuse and is excluded here; a caller that is unsure
    /// tests with `contains_raw` first and treats absence as fatal.
    /// `None` is returned only when the stored variant does not match
    /// the handle's kind, which no honestly obtained handle produces.
    pub fn get<T: UIElement>(&self, r: &ElementRef<T>) -> (res: Option<&T>)
        requires
            self.elems().contains_key(r.id()),
        ensures
            match res {
                Some(v) => T::unwrap_spec(self.elems()[r.id()]) == Some(*v),
                None => T::unwrap_spec(self.elems()[r.id()]) is None,
            },
    {
        let id = r.raw();
        match self.elements.get(&id) {
            Some(e) => T::unwrap_ref(e),
            None => None,
        }
    }

    /// Delete an element by raw identity, from the store and the order
    /// atomically. Removing an identity that is not live (removed
    /// twice, or never inserted) is programmer misuse and is excluded
    /// here; a caller that is unsure tests with `contains_raw` first
    /// and treats absence as fatal.
    pub fn remove_raw(&mut self, r: u64)
        requires
            old(self).wf(),
            old(self).elems().contains_key(r),
        ensures
            final(self).wf(),
            final(self).elems() == old(self).elems().remove(r),
            final(self).order() == old(self).order().remove_value(r),
            final(self).mode_spec() == old(self).mode_spec(),
            final(self).gen() == old(self).gen(),
            final(self).cached_scales() == old(self).cached_scales(),
            final(self).cached_width() == old(self).cached_width(),
            final(self).cached_height() == old(self).cached_height(),
    {
        self.elements.remove(&r);
        let ghost oldlist = self.elements_list@;
        assert(oldlist.contains(r));
        let n = self.elements_list.len();
        let mut i: usize = 0;
        while self.elements_list[i] != r
            invariant
                self.elements_list@ == oldlist,
                n == oldlist.len(),
                0 <= i < n,
                forall|j: int| 0 <= j < i ==> oldlist[j] != r,
                oldlist.contains(r),
            decreases oldlist.len() - i,
        {
            i = i + 1;
            proof {
                if i == oldlist.len() {
                    let w = choose|w: int| 0 <= w < oldlist.len() && oldlist[w] == r;
                    assert(false);
                }
            }
        }
        self.elements_list.remove(i);
        proof {
            oldlist.index_of_first_ensures(r);
            let fi = oldlist.index_of_first(r)->Some_0;
            assert(fi == i) by {
                assert(oldlist[fi] == r);
                if fi < i {
                    assert(oldlist[fi] != r);
                }
            }
            assert(self.elements_list@ == oldlist.remove_value(r));
            assert(self.elements_list@.no_duplicates()) by {
                assert(oldlist.remove(i as int).no_duplicates());
            }
            assert forall|ii: int| 0 <= ii < self.elements_list@.len() implies self.elements@.contains_key(
                #[trigger] self.elements_list@[ii],
            ) by {
                if ii < i {
                    assert(self.elements_list@[ii] == oldlist[ii]);
                    assert(oldlist[ii] != r) by {
                        if oldlist[ii] == r {
                        }
                    }
                } else {
                    assert(self.elements_list@[ii] == oldlist[ii + 1]);
                    assert(oldlist[ii + 1] != r) by {
                        if oldlist[ii + 1] == r {
                            assert(oldlist[i as int] == r);
                        }
                    }
                }
            }
            assert forall|k2: u64| #[trigger] self.elements@.contains_key(k2) implies self.elements_list@.contains(
                k2,
            ) by {
                assert(k2 != r);
                assert(oldlist.contains(k2));
                let w = choose|w: int| 0 <= w < oldlist.len() && oldlist[w] == k2;
                if w < i {
                    assert(self.elements_list@[w] == k2);
                } else {
                    assert(w != i);
                    assert(self.elements_list@[w - 1] == k2);
                }
            }
        }
    }

    /// Delete the element a typed handle names; like `remove_raw`, the
    /// identity must be live.
    pub fn remove<T: UIElement>(&mut self, r: &ElementRef<T>)
        requires
            old(self).wf(),
            old(self).elems().contains_key(r.id()),
        ensures
            final(self).wf(),
            final(self).elems() == old(self).elems().remove(r.id()),
            final(self).order() == old(self).order().remove_value(r.id()),
            final(self).mode_spec() == old(self).mode_spec(),
            final(self).gen() == old(self).gen(),
            final(self).cached_scales() == old(self).cached_scales(),
            final(self).cached_width() == old(self).cached_width(),
            final(self).cached_height() == old(self).cached_height(),
    {
        let id = r.raw();
        self.remove_raw(id)
    }

    /// The scale factors the container's mode yields for a viewport.
    pub fn mode_scales(&self, width: u16, height: u16) -> (sc: Scales)
        ensures
            sc == spec_mode_scales(self.mode_spec(), width, height),
            mode_wf(self.mode_spec()) && width >= 1 && height >= 1 ==> scales_wf(sc),
    {
        match &self.mode {
            Mode::Scaled => Scales {
                xn: crate::geometry::SCALED_WIDTH,
                xd: width as u32,
                yn: crate::geometry::SCALED_HEIGHT,
                yd: height as u32,
            },
            Mode::Unscaled(s) => Scales {
                xn: s.num as u32,
                xd: s.den as u32,
                yn: s.num as u32,
                yd: s.den as u32,
            },
        }
    }

    fn elem_region(&self, e: &Element, sc: &Scales, fuel: usize) -> (r: Option<Region>)
        requires
            scales_wf(*sc),
        ensures
            r == spec_elem_region(self.elems(), *e, *sc, fuel as nat),
            r is Some ==> region_wf(r->Some_0),
        decreases fuel,
    {
        let b = e.base();
        let (w, h) = e.size();
        match b.parent {
            None => {
                let screen = screen_region(sc);
                region_raw(w, h, b.x, b.y, b.h_attach, b.v_attach, sc, &screen)
            },
            Some(p) => {
                if fuel == 0 {
                    return None;
                }
                match self.elements.get(&p) {
                    None => None,
                    Some(pe) => match self.elem_region(pe, sc, fuel - 1) {
                        None => None,
                        Some(sup) => region_raw(w, h, b.x, b.y, b.h_attach, b.v_attach, sc, &sup),
                    },
                }
            },
        }
    }

    fn eff_dirty(&self, e: &Element, fuel: usize) -> (d: bool)
        ensures
            d == spec_eff_dirty(self.elems(), *e, fuel as nat),
        decreases fuel,
    {
        let b = e.base();
        if b.dirty {
            return true;
        }
        match b.parent {
            None => false,
            Some(p) => {
                if fuel == 0 {
                    return false;
                }
                match self.elements.get(&p) {
                    None => false,
                    Some(pe) => self.eff_dirty(pe, fuel - 1),
                }
            },
        }
    }

    /// One frame: refresh the scale factors, mark everything dirty when
    /// they, the viewport or the renderer generation changed, and list
    /// the visible elements to draw, in insertion order, storing each
    /// one's effective dirtiness.
    pub fn tick(&mut self, width: u16, height: u16, version: u64) -> (out: TickOutput)
        requires
            old(self).wf(),
            old(self).parents_ok(),
            width >= 1,
            height >= 1,
        ensures
            ({
                let sc = spec_mode_scales(old(self).mode_spec(), width, height);
                let mm = spec_marked(
                    old(self).elems(),
                    old(self).tick_changed(width, height, version),
                );
                let fuel = old(self).order().len() as nat;
                &&& final(self).wf()
                &&& final(self).order() == old(self).order()
                &&& final(self).mode_spec() == old(self).mode_spec()
                &&& final(self).elems().dom() == old(self).elems().dom()
                &&& forall|k: u64|
                    #[trigger] old(self).elems().contains_key(k) ==> final(self).elems()[k]
                        == spec_tick_elem(mm, k, sc, fuel)
                &&& out.update_all == (old(self).gen() != version)
                &&& out.draws@ == spec_draw_seq(mm, old(self).order(), sc, fuel)
                &&& final(self).gen() == version
                &&& final(self).cached_scales() == sc
                &&& final(self).cached_width() == width
                &&& final(self).cached_height() == height
            }),
    {
        let ghost m0 = self.elements@;
        let ghost l0 = self.elements_list@;
        let sc = self.mode_scales(width, height);
        let changed = sc != self.last_scales || width != self.last_width || height
            != self.last_height || version != self.version;
        let update_all = version != self.version;
        if changed {
            let n = self.elements_list.len();
            let mut i: usize = 0;
            while i < n
                invariant
                    old(self).wf(),
                    m0 == old(self).elements@,
                    l0 == old(self).elements_list@,
                    self.elements_list@ == l0,
                    n == l0.len(),
                    i <= n,
                    self.mode == old(self).mode,
                    self.version == old(self).version,
                    self.last_scales == old(self).last_scales,
                    self.last_width == old(self).last_width,
                    self.last_height == old(self).last_height,
                    forall|k: u64|
                        m0.contains_key(k) <==> #[trigger] self.elements@.contains_key(k),
                    forall|k: u64|
                        #[trigger] m0.contains_key(k) ==> self.elements@[k] == (if l0.take(
                            i as int,
                        ).contains(k) {
                            with_base(m0[k], Base { dirty: true, ..base_of(m0[k]) })
                        } else {
                            m0[k]
                        }),
                decreases n - i,
            {
                let id = self.elements_list[i];
                proof {
                    assert(m0.contains_key(id));
                }
                let mut e = self.elements.remove(&id).unwrap();
                proof {
                    if l0.take(i as int).contains(id) {
                        let w = choose|w: int| 0 <= w < i && #[trigger] l0.take(i as int)[w] == id;
                        assert(l0[w] == l0[i as int]);
                        assert(false);
                    }
                }
                e.set_dirty(true);
                self.elements.insert(id, e);
                proof {
                    assert forall|k: u64| #[trigger] m0.contains_key(k) implies self.elements@[k]
                        == (if l0.take(i + 1).contains(k) {
                        with_base(m0[k], Base { dirty: true, ..base_of(m0[k]) })
                    } else {
                        m0[k]
                    }) by {
                        if k == id {
                            assert(l0.take(i + 1)[i as int] == id);
                            assert(l0.take(i + 1).contains(id));
                        } else {
                            if l0.take(i + 1).contains(k) {
                                let w = choose|w: int| 0 <= w < i + 1 && #[trigger] l0.take(i + 1)[w] == k;
                                assert(l0.take(i as int)[w] == k);
                            } else if l0.take(i as int).contains(k) {
                                let w = choose|w: int| 0 <= w < i && #[trigger] l0.take(i as int)[w] == k;
                                assert(l0.take(i + 1)[w] == k);
                            }
                        }
                    }
                }
                i = i + 1;
            }
            proof {
                assert forall|k: u64| #[trigger] m0.contains_key(k) implies self.elements@[k]
                    == spec_marked(m0, true)[k] by {
                    assert(l0.contains(k));
                    let w = choose|w: int| 0 <= w < l0.len() && l0[w] == k;
                    assert(l0.take(n as int) == l0);
                    assert(l0.take(n as int)[w] == k);
                }
                assert(self.elements@ =~= spec_marked(m0, true));
            }
        }
        let ghost mm = spec_marked(m0, changed);
        proof {
            assert(self.elements@ == mm);
        }
        self.last_scales = sc;
        self.last_width = width;
        self.last_height = height;
        self.version = version;
        let fuel = self.elements_list.len();
        let n = fuel;
        let mut infos: Vec<Option<(Region, bool)>> = Vec::new();
        let mut i: usize = 0;
        while i < n
            invariant
                old(self).wf(),
                m0 == old(self).elements@,
                l0 == old(self).elements_list@,
                self.elements@ == mm,
                self.elements_list@ == l0,
                n == l0.len(),
                fuel == n,
                i <= n,
                scales_wf(sc),
                infos@.len() == i,
                forall|k: u64| mm.contains_key(k) <==> #[trigger] m0.contains_key(k),
                forall|j: int|
                    0 <= j < i ==> #[trigger] infos@[j] == spec_info(mm, l0[j], sc, fuel as nat),
            decreases n - i,
        {
            let id = self.elements_list[i];
            proof {
                assert(m0.contains_key(id));
            }
            let info: Option<(Region, bool)> = match self.elements.get(&id) {
                Some(e) => {
                    if e.base().should_draw {
                        match self.elem_region(e, &sc, fuel) {
                            Some(rg) => {
                                let screen = screen_region(&sc);
                                if region_intersects(&rg, &screen) {
                                    let d = self.eff_dirty(e, fuel);
                                    Some((rg, d))
                                } else {
                                    None
                                }
                            },
                            None => None,
                        }
                    } else {
                        None
                    }
                },
                None => None,
            };
            infos.push(info);
            i = i + 1;
        }
        let mut draws: Vec<DrawCommand> = Vec::new();
        let mut i: usize = 0;
        while i < n
            invariant
                old(self).wf(),
                m0 == old(self).elements@,
                l0 == old(self).elements_list@,
                self.elements_list@ == l0,
                n == l0.len(),
                fuel == n,
                i <= n,
                scales_wf(sc),
                infos@.len() == n,
                forall|j: int|
                    0 <= j < n ==> #[trigger] infos@[j] == spec_info(mm, l0[j], sc, fuel as nat),
                forall|k: u64| mm.contains_key(k) <==> #[trigger] self.elements@.contains_key(k),
                forall|k: u64| mm.contains_key(k) <==> #[trigger] m0.contains_key(k),
                forall|j: int|
                    0 <= j < n ==> #[trigger] self.elements@[l0[j]] == (if j < i {
                        spec_tick_elem(mm, l0[j], sc, fuel as nat)
                    } else {
                        mm[l0[j]]
                    }),
                draws@ == spec_draw_seq(mm, l0.take(i as int), sc, fuel as nat),
                self.mode == old(self).mode,
                self.version == version,
                self.last_scales == sc,
                self.last_width == width,
                self.last_height == height,
            decreases n - i,
        {
            let id = self.elements_list[i];
            proof {
                assert(m0.contains_key(id));
                assert(l0.take(i + 1).drop_last() =~= l0.take(i as int));
                assert(l0.take(i + 1).last() == l0[i as int]);
            }
            match infos[i] {
                Some((rg, d)) => {
                    let mut e = self.elements.remove(&id).unwrap();
                    proof {
                        assert(e == mm[id]) by {
                            assert(self.elements_list@[i as int] == id);
                        }
                    }
                    e.set_dirty(d);
                    self.elements.insert(id, e);
                    draws.push(DrawCommand { id, region: rg, dirty: d });
                },
                None => {},
            }
            i = i + 1;
            proof {
                assert forall|j: int| 0 <= j < n implies #[trigger] self.elements@[l0[j]] == (if j
                    < i {
                    spec_tick_elem(mm, l0[j], sc, fuel as nat)
                } else {
                    mm[l0[j]]
                }) by {
                    if l0[j] == id && j != i - 1 {
                        assert(old(self).elements_list@[j] == old(self).elements_list@[i - 1]);
                    }
                }
            }
        }
        proof {
            assert(l0.take(n as int) == l0);
            assert forall|k: u64| #[trigger] m0.contains_key(k) implies self.elements@[k]
                == spec_tick_elem(mm, k, sc, fuel as nat) by {
                assert(l0.contains(k));
                let w = choose|w: int| 0 <= w < l0.len() && l0[w] == k;
                assert(self.elements@[l0[w]] == spec_tick_elem(mm, l0[w], sc, fuel as nat));
            }
        }
        TickOutput { update_all, draws }
    }

    /// Route a click at viewport pixel `(x, y)` to the topmost element
    /// whose region contains it and that has click callbacks: the scan
    /// runs in reverse insertion order and stops at the first hit. The
    /// hit element's identity and callback tokens are returned for the
    /// host to invoke, each with mutable access to this container.
    pub fn click_at(&self, x: i16, y: i16, width: u16, height: u16) -> (hit: Option<
        (u64, Vec<u64>),
    >)
        requires
            self.wf(),
            self.parents_ok(),
            width >= 1,
            height >= 1,
        ensures
            ({
                let sc = spec_mode_scales(self.mode_spec(), width, height);
                let fuel = self.order().len() as nat;
                let target = spec_click_target(
                    self.elems(),
                    self.order(),
                    sc,
                    x as int * 854,
                    width as int,
                    y as int * 480,
                    height as int,
                    fuel,
                );
                match hit {
                    Some(h) => target == Some(h.0) && self.elems().contains_key(h.0) && h.1@
                        == base_of(self.elems()[h.0]).click_funcs@,
                    None => target is None,
                }
            }),
    {
        let sc = self.mode_scales(width, height);
        let mxn: i128 = (x as i128) * 854;
        let myn: i128 = (y as i128) * 480;
        let mxd: i128 = width as i128;
        let myd: i128 = height as i128;
        let fuel = self.elements_list.len();
        let n = fuel;
        let ghost l0 = self.elements_list@;
        proof {
            assert(l0.take(n as int) == l0);
        }
        let mut i: usize = n;
        while i > 0
            invariant
                self.wf(),
                scales_wf(sc),
                sc == spec_mode_scales(self.mode_spec(), width, height),
                l0 == self.elements_list@,
                n == l0.len(),
                fuel == n,
                i <= n,
                mxn == x as int * 854,
                myn == y as int * 480,
                mxd == width as int,
                myd == height as int,
                1 <= width,
                1 <= height,
                spec_click_target(
                    self.elems(),
                    l0,
                    sc,
                    mxn as int,
                    mxd as int,
                    myn as int,
                    myd as int,
                    fuel as nat,
                ) == spec_click_target(
                    self.elems(),
                    l0.take(i as int),
                    sc,
                    mxn as int,
                    mxd as int,
                    myn as int,
                    myd as int,
                    fuel as nat,
                ),
            decreases i,
        {
            i = i - 1;
            let id = self.elements_list[i];
            proof {
                assert(self.elements@.contains_key(id));
                assert(l0.take(i + 1).drop_last() =~= l0.take(i as int));
                assert(l0.take(i + 1).last() == l0[i as int]);
            }
            let e = self.elements.get(&id).unwrap();
            if e.base().click_funcs.len() > 0 {
                match self.elem_region(e, &sc, fuel) {
                    Some(rg) => {
                        if region_contains(&rg, mxn, mxd, myn, myd) {
                            let funcs = copy_tokens(&e.base().click_funcs);
                            return Some((id, funcs));
                        }
                    },
                    None => {},
                }
            }
        }
        proof {
            assert(l0.take(0) =~= Seq::<u64>::empty());
        }
        None
    }
}

/// The elements a hover dispatch examines, topmost first, each with
/// whether the pointer is over it.
pub open spec fn spec_hover_pairs(
    m: Map<u64, Element>,
    ord: Seq<u64>,
    sc: Scales,
    mxn: int,
    mxd: int,
    myn: int,
    myd: int,
    fuel: nat,
) -> Seq<(u64, bool)>
    decreases ord.len(),
{
    if ord.len() == 0 {
        Seq::empty()
    } else {
        let id = ord.last();
        let rest = spec_hover_pairs(m, ord.drop_last(), sc, mxn, mxd, myn, myd, fuel);
        if m.contains_key(id) && base_of(m[id]).hover_funcs.len() > 0 {
            seq![(id, spec_over(m, id, sc, mxn, mxd, myn, myd, fuel))] + rest
        } else {
            rest
        }
    }
}

/// The transitions among a list of examined elements: those whose
/// recorded hover state differs from the pointer's current position.
pub open spec fn spec_calls_from_pairs(m: Map<u64, Element>, pairs: Seq<(u64, bool)>) -> Seq<
    HoverCall,
>
    decreases pairs.len(),
{
    if pairs.len() == 0 {
        Seq::empty()
    } else {
        let p = pairs[0];
        let rest = spec_calls_from_pairs(m, pairs.drop_first());
        if base_of(m[p.0]).hovered != p.1 {
            seq![HoverCall { id: p.0, over: p.1 }] + rest
        } else {
            rest
        }
    }
}

/// The hover transitions are exactly the examined elements filtered by
/// a change of state.
proof fn lemma_hover_calls_decompose(
    m: Map<u64, Element>,
    ord: Seq<u64>,
    sc: Scales,
    mxn: int,
    mxd: int,
    myn: int,
    myd: int,
    fuel: nat,
)
    ensures
        spec_hover_calls(m, ord, sc, mxn, mxd, myn, myd, fuel) == spec_calls_from_pairs(
            m,
            spec_hover_pairs(m, ord, sc, mxn, mxd, myn, myd, fuel),
        ),
    decreases ord.len(),
{
    if ord.len() == 0 {
    } else {
        lemma_hover_calls_decompose(m, ord.drop_last(), sc, mxn, mxd, myn, myd, fuel);
        let id = ord.last();
        let rest_pairs = spec_hover_pairs(m, ord.drop_last(), sc, mxn, mxd, myn, myd, fuel);
        let pairs = spec_hover_pairs(m, ord, sc, mxn, mxd, myn, myd, fuel);
        if m.contains_key(id) && base_of(m[id]).hover_funcs.len() > 0 {
            let over = spec_over(m, id, sc, mxn, mxd, myn, myd, fuel);
            assert(pairs == seq![(id, over)] + rest_pairs);
            assert(pairs[0] == (id, over));
            assert(pairs.drop_first() =~= rest_pairs);
        }
    }
}

impl Container {
    /// Track the pointer at viewport pixel `(x, y)`: every element with
    /// hover callbacks is examined (topmost first), its stored hover
    /// state is replaced by whether the pointer is now over it, and each
    /// element whose state changed contributes its callback tokens for
    /// the host to invoke with the new state.
    pub fn hover_at(&mut self, x: i16, y: i16, width: u16, height: u16) -> (calls: Vec<HoverCall>)
        requires
            old(self).wf(),
            old(self).parents_ok(),
            width >= 1,
            height >= 1,
        ensures
            ({
                let sc = spec_mode_scales(old(self).mode_spec(), width, height);
                let fuel = old(self).order().len() as nat;
                let m0 = old(self).elems();
                &&& final(self).wf()
                &&& final(self).order() == old(self).order()
                &&& final(self).mode_spec() == old(self).mode_spec()
                &&& final(self).gen() == old(self).gen()
                &&& final(self).cached_scales() == old(self).cached_scales()
                &&& final(self).cached_width() == old(self).cached_width()
                &&& final(self).cached_height() == old(self).cached_height()
                &&& final(self).elems().dom() == m0.dom()
                &&& forall|k: u64|
                    #[trigger] m0.contains_key(k) ==> final(self).elems()[k] == spec_hover_elem(
                        m0,
                        k,
                        sc,
                        x as int * 854,
                        width as int,
                        y as int * 480,
                        height as int,
                        fuel,
                    )
                &&& calls@ == spec_hover_calls(
                    m0,
                    old(self).order(),
                    sc,
                    x as int * 854,
                    width as int,
                    y as int * 480,
                    height as int,
                    fuel,
                )
            }),
    {
        let ghost m0 = self.elements@;
        let ghost l0 = self.elements_list@;
        let sc = self.mode_scales(width, height);
        let mxn: i128 = (x as i128) * 854;
        let myn: i128 = (y as i128) * 480;
        let mxd: i128 = width as i128;
        let myd: i128 = height as i128;
        let fuel = self.elements_list.len();
        let n = fuel;
        let mut pairs: Vec<(u64, bool)> = Vec::new();
        let ghost mut poss: Seq<int> = Seq::empty();
        proof {
            assert(l0.take(n as int) == l0);
        }
        let mut i: usize = n;
        while i > 0
            invariant
                old(self).wf(),
                self == old(self),
                m0 == self.elements@,
                l0 == self.elements_list@,
                n == l0.len(),
                fuel == n,
                i <= n,
                scales_wf(sc),
                sc == spec_mode_scales(self.mode_spec(), width, height),
                mxn == x as int * 854,
                myn == y as int * 480,
                mxd == width as int,
                myd == height as int,
                1 <= width,
                1 <= height,
                poss.len() == pairs@.len(),
                forall|a: int|
                    0 <= a < poss.len() ==> i <= #[trigger] poss[a] < n && l0[poss[a]]
                        == pairs@[a].0,
                forall|a: int, b: int| 0 <= a < b < poss.len() ==> poss[a] > poss[b],
                forall|a: int|
                    0 <= a < pairs@.len() ==> m0.contains_key(#[trigger] pairs@[a].0) && base_of(
                        m0[pairs@[a].0],
                    ).hover_funcs.len() > 0 && pairs@[a].1 == spec_over(
                        m0,
                        pairs@[a].0,
                        sc,
                        mxn as int,
                        mxd as int,
                        myn as int,
                        myd as int,
                        fuel as nat,
                    ),
                forall|j: int|
                    i <= j < n && m0.contains_key(#[trigger] l0[j]) && base_of(
                        m0[l0[j]],
                    ).hover_funcs.len() > 0 ==> exists|a: int|
                        0 <= a < poss.len() && poss[a] == j,
                spec_hover_pairs(
                    m0,
                    l0,
                    sc,
                    mxn as int,
                    mxd as int,
                    myn as int,
                    myd as int,
                    fuel as nat,
                ) == pairs@ + spec_hover_pairs(
                    m0,
                    l0.take(i as int),
                    sc,
                    mxn as int,
                    mxd as int,
                    myn as int,
                    myd as int,
                    fuel as nat,
                ),
            decreases i,
        {
            i = i - 1;
            let id = self.elements_list[i];
            proof {
                assert(m0.contains_key(id));
                assert(l0.take(i + 1).drop_last() =~= l0.take(i as int));
                assert(l0.take(i + 1).last() == l0[i as int]);
            }
            let e = self.elements.get(&id).unwrap();
            if e.base().hover_funcs.len() > 0 {
                let over = match self.elem_region(e, &sc, fuel) {
                    Some(rg) => region_contains(&rg, mxn, mxd, myn, myd),
                    None => false,
                };
                let ghost oldpairs = pairs@;
                let ghost oldposs = poss;
                pairs.push((id, over));
                proof {
                    poss = poss.push(i as int);
                    assert(oldpairs + (seq![(id, over)] + spec_hover_pairs(
                        m0,
                        l0.take(i as int),
                        sc,
                        mxn as int,
                        mxd as int,
                        myn as int,
                        myd as int,
                        fuel as nat,
                    )) =~= pairs@ + spec_hover_pairs(
                        m0,
                        l0.take(i as int),
                        sc,
                        mxn as int,
                        mxd as int,
                        myn as int,
                        myd as int,
                        fuel as nat,
                    ));
                    assert forall|j: int|
                        i <= j < n && m0.contains_key(#[trigger] l0[j]) && base_of(
                            m0[l0[j]],
                        ).hover_funcs.len() > 0 implies exists|a: int|
                        0 <= a < poss.len() && poss[a] == j by {
                        if j == i {
                            assert(poss[poss.len() - 1] == j);
                        } else {
                            assert(exists|a: int| 0 <= a < oldposs.len() && oldposs[a] == j);
                            let a = choose|a: int|
                                0 <= a < oldposs.len() && #[trigger] oldposs[a] == j;
                            assert(poss[a] == j);
                        }
                    }
                }
            }
        }
        proof {
            assert(l0.take(0) =~= Seq::<u64>::empty());
            assert(spec_hover_pairs(
                m0,
                l0,
                sc,
                mxn as int,
                mxd as int,
                myn as int,
                myd as int,
                fuel as nat,
            ) =~= pairs@);
        }
        let ghost pairs0 = pairs@;
        proof {
            assert(pairs0.skip(0) == pairs0);
            assert(Seq::<HoverCall>::empty() + spec_calls_from_pairs(m0, pairs0)
                =~= spec_calls_from_pairs(m0, pairs0));
        }
        let np = pairs.len();
        let mut calls: Vec<HoverCall> = Vec::new();
        let mut j: usize = 0;
        while j < np
            invariant
                old(self).wf(),
                m0 == old(self).elements@,
                l0 == old(self).elements_list@,
                self.elements_list@ == l0,
                self.mode == old(self).mode,
                self.version == old(self).version,
                self.last_scales == old(self).last_scales,
                self.last_width == old(self).last_width,
                self.last_height == old(self).last_height,
                n == l0.len(),
                fuel == n,
                j <= np,
                np == pairs0.len(),
                pairs@ == pairs0,
                scales_wf(sc),
                mxn == x as int * 854,
                myn == y as int * 480,
                mxd == width as int,
                myd == height as int,
                poss.len() == pairs0.len(),
                forall|a: int|
                    0 <= a < poss.len() ==> 0 <= #[trigger] poss[a] < n && l0[poss[a]]
                        == pairs0[a].0,
                forall|a: int, b: int| 0 <= a < b < poss.len() ==> poss[a] > poss[b],
                forall|a: int|
                    0 <= a < pairs0.len() ==> m0.contains_key(#[trigger] pairs0[a].0) && base_of(
                        m0[pairs0[a].0],
                    ).hover_funcs.len() > 0 && pairs0[a].1 == spec_over(
                        m0,
                        pairs0[a].0,
                        sc,
                        mxn as int,
                        mxd as int,
                        myn as int,
                        myd as int,
                        fuel as nat,
                    ),
                forall|jj: int|
                    0 <= jj < n && m0.contains_key(#[trigger] l0[jj]) && base_of(
                        m0[l0[jj]],
                    ).hover_funcs.len() > 0 ==> exists|a: int|
                        0 <= a < poss.len() && poss[a] == jj,
                forall|k: u64| m0.contains_key(k) <==> #[trigger] self.elements@.contains_key(k),
                forall|k: u64|
                    #[trigger] m0.contains_key(k) ==> self.elements@[k] == (if (exists|a: int|
                        0 <= a < j && (#[trigger] pairs0[a]).0 == k) {
                        spec_hover_elem(
                            m0,
                            k,
                            sc,
                            mxn as int,
                            mxd as int,
                            myn as int,
                            myd as int,
                            fuel as nat,
                        )
                    } else {
                        m0[k]
                    }),
                spec_calls_from_pairs(m0, pairs0) == calls@ + spec_calls_from_pairs(
                    m0,
                    pairs0.skip(j as int),
                ),
            decreases np - j,
        {
            let (id, over) = pairs[j];
            proof {
                assert(pairs0[j as int].0 == id);
                assert(m0.contains_key(id));
                assert forall|a: int| 0 <= a < j implies (#[trigger] pairs0[a]).0 != id by {
                    assert(l0[poss[a]] == pairs0[a].0);
                    assert(l0[poss[j as int]] == id);
                    assert(poss[a] > poss[j as int]);
                    if l0[poss[a]] == l0[poss[j as int]] {
                    }
                }
                assert(self.elements@[id] == m0[id]);
                assert(pairs0.skip(j as int)[0] == pairs0[j as int]);
                assert(pairs0.skip(j as int).drop_first() =~= pairs0.skip(j as int + 1));
            }
            let mut e = self.elements.remove(&id).unwrap();
            let call = e.should_call_hover(over);
            if call {
                calls.push(HoverCall { id, over });
            }
            self.elements.insert(id, e);
            proof {
                assert(pairs0[j as int] == (id, over));
                let tail = spec_calls_from_pairs(m0, pairs0.skip(j as int + 1));
                assert(spec_calls_from_pairs(m0, pairs0.skip(j as int)) == (if base_of(
                    m0[id],
                ).hovered != over {
                    seq![HoverCall { id, over }] + tail
                } else {
                    tail
                }));
                if base_of(m0[id]).hovered != over {
                    assert(calls@ + tail =~= spec_calls_from_pairs(m0, pairs0));
                }
                assert forall|k: u64| #[trigger] m0.contains_key(k) implies self.elements@[k] == (
                if (exists|a: int| 0 <= a < j + 1 && (#[trigger] pairs0[a]).0 == k) {
                    spec_hover_elem(
                        m0,
                        k,
                        sc,
                        mxn as int,
                        mxd as int,
                        myn as int,
                        myd as int,
                        fuel as nat,
                    )
                } else {
                    m0[k]
                }) by {
                    if k == id {
                        assert((pairs0[j as int]).0 == k);
                        assert(base_of(m0[k]).hover_funcs.len() > 0);
                    } else {
                        if exists|a: int| 0 <= a < j + 1 && (#[trigger] pairs0[a]).0 == k {
                            let a = choose|a: int| 0 <= a < j + 1 && (#[trigger] pairs0[a]).0 == k;
                            assert(a < j);
                        }
                    }
                }
            }
            j = j + 1;
        }
        proof {
            assert(pairs0.skip(np as int) =~= Seq::<(u64, bool)>::empty());
            lemma_hover_calls_decompose(
                m0,
                l0,
                sc,
                mxn as int,
                mxd as int,
                myn as int,
                myd as int,
                fuel as nat,
            );
            assert(calls@ + Seq::<HoverCall>::empty() =~= calls@);
            assert forall|k: u64| #[trigger] m0.contains_key(k) implies self.elements@[k]
                == spec_hover_elem(
                m0,
                k,
                sc,
                mxn as int,
                mxd as int,
                myn as int,
                myd as int,
                fuel as nat,
            ) by {
                if base_of(m0[k]).hover_funcs.len() > 0 {
                    assert(l0.contains(k));
                    let w = choose|w: int| 0 <= w < l0.len() && l0[w] == k;
                    assert(exists|a: int| 0 <= a < poss.len() && poss[a] == w);
                    let a = choose|a: int| 0 <= a < poss.len() && #[trigger] poss[a] == w;
                    assert(pairs0[a].0 == k);
                }
            }
            assert(self.elements@.dom() =~= m0.dom());
        }
        calls
    }
}

impl Container {
    /// The hover callback tokens of an element, for dispatching a
    /// `HoverCall`.
    pub fn hover_funcs_of(&self, id: u64) -> (r: Option<Vec<u64>>)
        ensures
            match r {
                Some(v) => self.elems().contains_key(id) && v@ == base_of(
                    self.elems()[id],
                ).hover_funcs@,
                None => !self.elems().contains_key(id),
            },
    {
        match self.elements.get(&id) {
            Some(e) => Some(copy_tokens(&e.base().hover_funcs)),
            None => None,
        }
    }

    fn update_element(&mut self, id: u64, e: Element)
        requires
            old(self).elements_list@.no_duplicates(),
            mode_wf(old(self).mode),
            forall|i: int|
                0 <= i < old(self).elements_list@.len() ==> old(self).elements@.contains_key(
                    #[trigger] old(self).elements_list@[i],
                ) || old(self).elements_list@[i] == id,
            forall|k: u64|
                #[trigger] old(self).elements@.contains_key(k) ==> old(
                    self,
                ).elements_list@.contains(k),
            old(self).elements_list@.contains(id),
        ensures
            final(self).wf(),
            final(self).elems() == old(self).elems().insert(id, e),
            final(self).order() == old(self).order(),
            final(self).mode_spec() == old(self).mode_spec(),
            final(self).gen() == old(self).gen(),
            final(self).cached_scales() == old(self).cached_scales(),
            final(self).cached_width() == old(self).cached_width(),
            final(self).cached_height() == old(self).cached_height(),
    {
        self.elements.insert(id, e);
        proof {
            assert forall|k2: u64| #[trigger] self.elements@.contains_key(k2) implies self.elements_list@.contains(
                k2,
            ) by {
                if k2 != id {
                    assert(old(self).elements@.contains_key(k2));
                }
            }
        }
    }

    /// Mark or clear an element's dirty flag (the host's draw hook
    /// clears it once the element is redrawn); fails if the identity is
    /// not live.
    pub fn set_dirty<T: UIElement>(&mut self, r: &ElementRef<T>, val: bool) -> (ok: bool)
        requires
            old(self).wf(),
        ensures
            final(self).wf(),
            ok == old(self).elems().contains_key(r.id()),
            final(self).elems() == if ok {
                old(self).elems().insert(
                    r.id(),
                    with_base(
                        old(self).elems()[r.id()],
                        Base { dirty: val, ..base_of(old(self).elems()[r.id()]) },
                    ),
                )
            } else {
                old(self).elems()
            },
            final(self).order() == old(self).order(),
            final(self).mode_spec() == old(self).mode_spec(),
            final(self).gen() == old(self).gen(),
            final(self).cached_scales() == old(self).cached_scales(),
            final(self).cached_width() == old(self).cached_width(),
            final(self).cached_height() == old(self).cached_height(),
    {
        let id = r.raw();
        match self.elements.remove(&id) {
            Some(mut e) => {
                e.set_dirty(val);
                self.elements.insert(id, e);
                proof {
                    assert(self.elements@ =~= old(self).elements@.insert(
                        id,
                        with_base(
                            old(self).elements@[id],
                            Base { dirty: val, ..base_of(old(self).elements@[id]) },
                        ),
                    ));
                    assert forall|k2: u64| #[trigger] self.elements@.contains_key(k2) implies self.elements_list@.contains(
                        k2,
                    ) by {
                        assert(old(self).elements@.contains_key(k2));
                    }
                }
                true
            },
            None => false,
        }
    }

    /// Set an element's lazy horizontal offset: dirties exactly when
    /// the value changes. Fails if the identity is not live.
    pub fn set_x<T: UIElement>(&mut self, r: &ElementRef<T>, val: i16) -> (ok: bool)
        requires
            old(self).wf(),
        ensures
            final(self).wf(),
            ok == old(self).elems().contains_key(r.id()),
            final(self).elems() == if ok {
                ({
                    let b = base_of(old(self).elems()[r.id()]);
                    old(self).elems().insert(
                        r.id(),
                        with_base(
                            old(self).elems()[r.id()],
                            Base { x: val, dirty: b.dirty || val != b.x, ..b },
                        ),
                    )
                })
            } else {
                old(self).elems()
            },
            final(self).order() == old(self).order(),
            final(self).mode_spec() == old(self).mode_spec(),
            final(self).gen() == old(self).gen(),
            final(self).cached_scales() == old(self).cached_scales(),
            final(self).cached_width() == old(self).cached_width(),
            final(self).cached_height() == old(self).cached_height(),
    {
        let id = r.raw();
        match self.elements.remove(&id) {
            Some(mut e) => {
                e.set_x(val);
                self.update_element(id, e);
                proof {
                    assert(self.elements@ =~= old(self).elements@.insert(id, self.elements@[id]));
                }
                true
            },
            None => false,
        }
    }

    /// Set an element's lazy vertical offset: dirties exactly when the
    /// value changes. Fails if the identity is not live.
    pub fn set_y<T: UIElement>(&mut self, r: &ElementRef<T>, val: i16) -> (ok: bool)
        requires
            old(self).wf(),
        ensures
            final(self).wf(),
            ok == old(self).elems().contains_key(r.id()),
            final(self).elems() == if ok {
                ({
                    let b = base_of(old(self).elems()[r.id()]);
                    old(self).elems().insert(
                        r.id(),
                        with_base(
                            old(self).elems()[r.id()],
                            Base { y: val, dirty: b.dirty || val != b.y, ..b },
                        ),
                    )
                })
            } else {
                old(self).elems()
            },
            final(self).order() == old(self).order(),
            final(self).mode_spec() == old(self).mode_spec(),
            final(self).gen() == old(self).gen(),
            final(self).cached_scales() == old(self).cached_scales(),
            final(self).cached_width() == old(self).cached_width(),
            final(self).cached_height() == old(self).cached_height(),
    {
        let id = r.raw();
        match self.elements.remove(&id) {
            Some(mut e) => {
                e.set_y(val);
                self.update_element(id, e);
                proof {
                    assert(self.elements@ =~= old(self).elements@.insert(id, self.elements@[id]));
                }
                true
            },
            None => false,
        }
    }

    /// Set an element's lazy layer: dirties exactly when the value
    /// changes. Fails if the identity is not live.
    pub fn set_layer<T: UIElement>(&mut self, r: &ElementRef<T>, val: i32) -> (ok: bool)
        requires
            old(self).wf(),
        ensures
            final(self).wf(),
            ok == old(self).elems().contains_key(r.id()),
            final(self).elems() == if ok {
                ({
                    let b = base_of(old(self).elems()[r.id()]);
                    old(self).elems().insert(
                        r.id(),
                        with_base(
                            old(self).elems()[r.id()],
                            Base { layer: val, dirty: b.dirty || val != b.layer, ..b },
                        ),
                    )
                })
            } else {
                old(self).elems()
            },
            final(self).order() == old(self).order(),
            final(self).mode_spec() == old(self).mode_spec(),
            final(self).gen() == old(self).gen(),
            final(self).cached_scales() == old(self).cached_scales(),
            final(self).cached_width() == old(self).cached_width(),
            final(self).cached_height() == old(self).cached_height(),
    {
        let id = r.raw();
        match self.elements.remove(&id) {
            Some(mut e) => {
                e.set_layer(val);
                self.update_element(id, e);
                proof {
                    assert(self.elements@ =~= old(self).elements@.insert(id, self.elements@[id]));
                }
                true
            },
            None => false,
        }
    }

    /// Set an element's lazy vertical attachment: dirties exactly when
    /// the value changes. Fails if the identity is not live.
    pub fn set_v_attach<T: UIElement>(&mut self, r: &ElementRef<T>, val: VAttach) -> (ok: bool)
        requires
            old(self).wf(),
        ensures
            final(self).wf(),
            ok == old(self).elems().contains_key(r.id()),
            final(self).elems() == if ok {
                ({
                    let b = base_of(old(self).elems()[r.id()]);
                    old(self).elems().insert(
                        r.id(),
                        with_base(
                            old(self).elems()[r.id()],
                            Base { v_attach: val, dirty: b.dirty || val != b.v_attach, ..b },
                        ),
                    )
                })
            } else {
                old(self).elems()
            },
            final(self).order() == old(self).order(),
            final(self).mode_spec() == old(self).mode_spec(),
            final(self).gen() == old(self).gen(),
            final(self).cached_scales() == old(self).cached_scales(),
            final(self).cached_width() == old(self).cached_width(),
            final(self).cached_height() == old(self).cached_height(),
    {
        let id = r.raw();
        match self.elements.remove(&id) {
            Some(mut e) => {
                e.set_v_attach(val);
                self.update_element(id, e);
                proof {
                    assert(self.elements@ =~= old(self).elements@.insert(id, self.elements@[id]));
                }
                true
            },
            None => false,
        }
    }

    /// Set an element's lazy horizontal attachment: dirties exactly
    /// when the value changes. Fails if the identity is not live.
    pub fn set_h_attach<T: UIElement>(&mut self, r: &ElementRef<T>, val: HAttach) -> (ok: bool)
        requires
            old(self).wf(),
        ensures
            final(self).wf(),
            ok == old(self).elems().contains_key(r.id()),
            final(self).elems() == if ok {
                ({
                    let b = base_of(old(self).elems()[r.id()]);
                    old(self).elems().insert(
                        r.id(),
                        with_base(
                            old(self).elems()[r.id()],
                            Base { h_attach: val, dirty: b.dirty || val != b.h_attach, ..b },
                        ),
                    )
                })
            } else {
                old(self).elems()
            },
            final(self).order() == old(self).order(),
            final(self).mode_spec() == old(self).mode_spec(),
            final(self).gen() == old(self).gen(),
            final(self).cached_scales() == old(self).cached_scales(),
            final(self).cached_width() == old(self).cached_width(),
            final(self).cached_height() == old(self).cached_height(),
    {
        let id = r.raw();
        match self.elements.remove(&id) {
            Some(mut e) => {
                e.set_h_attach(val);
                self.update_element(id, e);
                proof {
                    assert(self.elements@ =~= old(self).elements@.insert(id, self.elements@[id]));
                }
                true
            },
            None => false,
        }
    }

    /// Attach an element below another one; always dirties the child.
    /// Fails if the child's identity is not live.
    pub fn set_parent<T: UIElement, U: UIElement>(
        &mut self,
        r: &ElementRef<T>,
        parent: &ElementRef<U>,
    ) -> (ok: bool)
        requires
            old(self).wf(),
        ensures
            final(self).wf(),
            ok == old(self).elems().contains_key(r.id()),
            final(self).elems() == if ok {
                old(self).elems().insert(
                    r.id(),
                    with_base(
                        old(self).elems()[r.id()],
                        Base {
                            parent: Some(parent.id()),
                            dirty: true,
                            ..base_of(old(self).elems()[r.id()])
                        },
                    ),
                )
            } else {
                old(self).elems()
            },
            final(self).order() == old(self).order(),
            final(self).mode_spec() == old(self).mode_spec(),
            final(self).gen() == old(self).gen(),
            final(self).cached_scales() == old(self).cached_scales(),
            final(self).cached_width() == old(self).cached_width(),
            final(self).cached_height() == old(self).cached_height(),
    {
        let id = r.raw();
        match self.elements.remove(&id) {
            Some(mut e) => {
                let pid = parent.raw();
                e.set_parent_raw(pid);
                self.update_element(id, e);
                proof {
                    assert(self.elements@ =~= old(self).elements@.insert(id, self.elements@[id]));
                }
                true
            },
            None => false,
        }
    }

    /// Toggle an element's visibility; the dirty flag is untouched.
    /// Fails if the identity is not live.
    pub fn set_should_draw<T: UIElement>(&mut self, r: &ElementRef<T>, val: bool) -> (ok: bool)
        requires
            old(self).wf(),
        ensures
            final(self).wf(),
            ok == old(self).elems().contains_key(r.id()),
            final(self).elems() == if ok {
                old(self).elems().insert(
                    r.id(),
                    with_base(
                        old(self).elems()[r.id()],
                        Base { should_draw: val, ..base_of(old(self).elems()[r.id()]) },
                    ),
                )
            } else {
                old(self).elems()
            },
            final(self).order() == old(self).order(),
            final(self).mode_spec() == old(self).mode_spec(),
            final(self).gen() == old(self).gen(),
            final(self).cached_scales() == old(self).cached_scales(),
            final(self).cached_width() == old(self).cached_width(),
            final(self).cached_height() == old(self).cached_height(),
    {
        let id = r.raw();
        match self.elements.remove(&id) {
            Some(mut e) => {
                e.set_should_draw(val);
                self.update_element(id, e);
                proof {
                    assert(self.elements@ =~= old(self).elements@.insert(id, self.elements@[id]));
                }
                true
            },
            None => false,
        }
    }

    /// Replace an element's drawn content bytes. Fails if the identity
    /// is not live.
    pub fn set_data<T: UIElement>(&mut self, r: &ElementRef<T>, data: Vec<u8>) -> (ok: bool)
        requires
            old(self).wf(),
        ensures
            final(self).wf(),
            ok == old(self).elems().contains_key(r.id()),
            ok ==> ({
                let e2 = final(self).elems()[r.id()];
                &&& final(self).elems() == old(self).elems().insert(r.id(), e2)
                &&& e2 == with_base(
                    old(self).elems()[r.id()],
                    Base { data: base_of(e2).data, ..base_of(old(self).elems()[r.id()]) },
                )
                &&& base_of(e2).data@ == data@
            }),
            !ok ==> final(self).elems() == old(self).elems(),
            final(self).order() == old(self).order(),
            final(self).mode_spec() == old(self).mode_spec(),
            final(self).gen() == old(self).gen(),
            final(self).cached_scales() == old(self).cached_scales(),
            final(self).cached_width() == old(self).cached_width(),
            final(self).cached_height() == old(self).cached_height(),
    {
        let id = r.raw();
        match self.elements.remove(&id) {
            Some(mut e) => {
                e.set_data(data);
                self.update_element(id, e);
                proof {
                    assert(self.elements@ =~= old(self).elements@.insert(id, self.elements@[id]));
                }
                true
            },
            None => false,
        }
    }

    /// Append a click callback token to an element. Fails if the
    /// identity is not live.
    pub fn add_click_func<T: UIElement>(&mut self, r: &ElementRef<T>, f: u64) -> (ok: bool)
        requires
            old(self).wf(),
        ensures
            final(self).wf(),
            ok == old(self).elems().contains_key(r.id()),
            ok ==> ({
                let e2 = final(self).elems()[r.id()];
                &&& final(self).elems() == old(self).elems().insert(r.id(), e2)
                &&& e2 == with_base(
                    old(self).elems()[r.id()],
                    Base {
                        click_funcs: base_of(e2).click_funcs,
                        ..base_of(old(self).elems()[r.id()])
                    },
                )
                &&& base_of(e2).click_funcs@ == base_of(old(self).elems()[r.id()]).click_funcs@.push(
                    f,
                )
            }),
            !ok ==> final(self).elems() == old(self).elems(),
            final(self).order() == old(self).order(),
            final(self).mode_spec() == old(self).mode_spec(),
            final(self).gen() == old(self).gen(),
            final(self).cached_scales() == old(self).cached_scales(),
            final(self).cached_width() == old(self).cached_width(),
            final(self).cached_height() == old(self).cached_height(),
    {
        let id = r.raw();
        match self.elements.remove(&id) {
            Some(mut e) => {
                e.add_click_func(f);
                self.update_element(id, e);
                proof {
                    assert(self.elements@ =~= old(self).elements@.insert(id, self.elements@[id]));
                }
                true
            },
            None => false,
        }
    }

    /// Append a hover callback token to an element. Fails if the
    /// identity is not live.
    pub fn add_hover_func<T: UIElement>(&mut self, r: &ElementRef<T>, f: u64) -> (ok: bool)
        requires
            old(self).wf(),
        ensures
            final(self).wf(),
            ok == old(self).elems().contains_key(r.id()),
            ok ==> ({
                let e2 = final(self).elems()[r.id()];
                &&& final(self).elems() == old(self).elems().insert(r.id(), e2)
                &&& e2 == with_base(
                    old(self).elems()[r.id()],
                    Base {
                        hover_funcs: base_of(e2).hover_funcs,
                        ..base_of(old(self).elems()[r.id()])
                    },
                )
                &&& base_of(e2).hover_funcs@ == base_of(old(self).elems()[r.id()]).hover_funcs@.push(
                    f,
                )
            }),
            !ok ==> final(self).elems() == old(self).elems(),
            final(self).order() == old(self).order(),
            final(self).mode_spec() == old(self).mode_spec(),
            final(self).gen() == old(self).gen(),
            final(self).cached_scales() == old(self).cached_scales(),
            final(self).cached_width() == old(self).cached_width(),
            final(self).cached_height() == old(self).cached_height(),
    {
        let id = r.raw();
        match self.elements.remove(&id) {
            Some(mut e) => {
                e.add_hover_func(f);
                self.update_element(id, e);
                proof {
                    assert(self.elements@ =~= old(self).elements@.insert(id, self.elements@[id]));
                }
                true
            },
            None => false,
        }
    }
}

/// The container state after removing a collection's identities one by
/// one, with whether every removal found its element live.
pub open spec fn spec_remove_all(m: Map<u64, Element>, ord: Seq<u64>, ids: Seq<u64>) -> (
    Map<u64, Element>,
    Seq<u64>,
    bool,
)
    decreases ids.len(),
{
    if ids.len() == 0 {
        (m, ord, true)
    } else {
        let id = ids[0];
        if m.contains_key(id) {
            let r = spec_remove_all(m.remove(id), ord.remove_value(id), ids.drop_first());
            (r.0, r.1, r.2)
        } else {
            let r = spec_remove_all(m, ord, ids.drop_first());
            (r.0, r.1, false)
        }
    }
}

/// A grouping of identities for bulk teardown; it owns no elements.
pub struct Collection {
    elements: Vec<u64>,
}

impl Collection {
    /// The recorded identities, in the order they were added.
    pub closed spec fn ids(&self) -> Seq<u64> {
        self.elements@
    }

    pub fn new() -> (c: Collection)
        ensures
            c.ids() == Seq::<u64>::empty(),
    {
        Collection { elements: Vec::new() }
    }

    /// Record an element's identity, handing the reference back.
    pub fn add<T: UIElement>(&mut self, element: ElementRef<T>) -> (r: ElementRef<T>)
        ensures
            final(self).ids() == old(self).ids().push(element.id()),
            r.id() == element.id(),
    {
        let id = element.raw();
        self.elements.push(id);
        element
    }

    /// Remove every recorded element from the container, in order. The
    /// result is false when some identity was no longer live (removed
    /// twice, or never inserted); the remaining removals still happen.
    /// That an absent identity is skipped and reported, rather than
    /// treated as fatal, is deliberate: a collection is a teardown
    /// convenience, and a half-torn-down group should still come down.
    pub fn remove_all(&mut self, container: &mut Container) -> (ok: bool)
        requires
            old(container).wf(),
        ensures
            final(self).ids() == old(self).ids(),
            final(container).wf(),
            ({
                let r = spec_remove_all(
                    old(container).elems(),
                    old(container).order(),
                    old(self).ids(),
                );
                &&& final(container).elems() == r.0
                &&& final(container).order() == r.1
                &&& ok == r.2
            }),
            final(container).mode_spec() == old(container).mode_spec(),
            final(container).gen() == old(container).gen(),
            final(container).cached_scales() == old(container).cached_scales(),
            final(container).cached_width() == old(container).cached_width(),
            final(container).cached_height() == old(container).cached_height(),
    {
        let ghost ids = self.elements@;
        proof {
            assert(ids.skip(0) == ids);
        }
        let n = self.elements.len();
        let mut ok = true;
        let mut i: usize = 0;
        while i < n
            invariant
                container.wf(),
                self.elements@ == ids,
                n == ids.len(),
                i <= n,
                container.mode_spec() == old(container).mode_spec(),
                container.gen() == old(container).gen(),
                container.cached_scales() == old(container).cached_scales(),
                container.cached_width() == old(container).cached_width(),
                container.cached_height() == old(container).cached_height(),
                ({
                    let full = spec_remove_all(
                        old(container).elems(),
                        old(container).order(),
                        ids,
                    );
                    let rest = spec_remove_all(
                        container.elems(),
                        container.order(),
                        ids.skip(i as int),
                    );
                    &&& full.0 == rest.0
                    &&& full.1 == rest.1
                    &&& full.2 == (ok && rest.2)
                }),
            decreases n - i,
        {
            let id = self.elements[i];
            proof {
                assert(ids.skip(i as int)[0] == ids[i as int]);
                assert(ids.skip(i as int).drop_first() =~= ids.skip(i as int + 1));
            }
            if container.contains_raw(id) {
                container.remove_raw(id);
            } else {
                ok = false;
            }
            i = i + 1;
        }
        proof {
            assert(ids.skip(n as int) =~= Seq::<u64>::empty());
        }
        ok
    }
}

/// An identity fresh from an insertion retrieves exactly the inserted
/// widget: wrapping into the variant union and unwrapping give the
/// value back unchanged.
pub proof fn lemma_add_then_get<T: UIElement>(m: Map<u64, Element>, k: u64, v: T)
    requires
        !m.contains_key(k),
    ensures
        T::unwrap_spec(m.insert(k, v.wrap_spec())[k]) == Some(v),
{
    v.lemma_wrap_roundtrip();
}

/// A removed identity is no longer live: a lookup or a second removal
/// under it finds nothing.
pub proof fn lemma_removed_gone(m: Map<u64, Element>, k: u64)
    ensures
        !m.remove(k).contains_key(k),
{
}

/// With no parent, Left/Top attachment and offset (0, 0), an element's
/// resolved region origin is exactly (0, 0), at any scale.
pub proof fn lemma_left_top_origin(m: Map<u64, Element>, e: Element, sc: Scales, fuel: nat)
    requires
        scales_wf(sc),
        base_of(e).parent is None,
        base_of(e).h_attach == HAttach::Left,
        base_of(e).v_attach == VAttach::Top,
        base_of(e).x == 0,
        base_of(e).y == 0,
    ensures
        spec_elem_region(m, e, sc, fuel) is Some,
        spec_elem_region(m, e, sc, fuel)->Some_0.xn == 0,
        spec_elem_region(m, e, sc, fuel)->Some_0.yn == 0,
{
    let w = width_of(e) as int;
    let h = height_of(e) as int;
    assert(-0x8000_0000_0000 <= w * (sc.xn as int) * 2 <= 0x8000_0000_0000) by (nonlinear_arith)
        requires
            -0x8000 <= w <= 0x8000,
            0 <= sc.xn <= 0x10000,
    ;
    assert(-0x8000_0000_0000 <= h * (sc.yn as int) * 2 <= 0x8000_0000_0000) by (nonlinear_arith)
        requires
            -0x8000 <= h <= 0x8000,
            0 <= sc.yn <= 0x10000,
    ;
}

/// With no parent, Right/Bottom attachment and offset (0, 0), the
/// region's right and bottom edges lie exactly on the screen's right
/// and bottom edges, at any scale.
pub proof fn lemma_right_bottom_edges(m: Map<u64, Element>, e: Element, sc: Scales, fuel: nat)
    requires
        scales_wf(sc),
        base_of(e).parent is None,
        base_of(e).h_attach == HAttach::Right,
        base_of(e).v_attach == VAttach::Bottom,
        base_of(e).x == 0,
        base_of(e).y == 0,
    ensures
        spec_elem_region(m, e, sc, fuel) is Some,
        ({
            let r = spec_elem_region(m, e, sc, fuel)->Some_0;
            let s = spec_screen(sc);
            &&& (r.xn + r.wn) * s.dx == (s.xn + s.wn) * r.dx
            &&& (r.yn + r.hn) * s.dy == (s.yn + s.hn) * r.dy
        }),
{
    let w = width_of(e) as int;
    let h = height_of(e) as int;
    assert(-0x8000_0000_0000 <= w * (sc.xn as int) * 2 <= 0x8000_0000_0000) by (nonlinear_arith)
        requires
            -0x8000 <= w <= 0x8000,
            0 <= sc.xn <= 0x10000,
    ;
    assert(-0x8000_0000_0000 <= h * (sc.yn as int) * 2 <= 0x8000_0000_0000) by (nonlinear_arith)
        requires
            -0x8000 <= h <= 0x8000,
            0 <= sc.yn <= 0x10000,
    ;
    let r = spec_elem_region(m, e, sc, fuel)->Some_0;
    let s = spec_screen(sc);
    assert((r.xn + r.wn) * s.dx == (s.xn + s.wn) * r.dx) by (nonlinear_arith)
        requires
            r.xn + r.wn == 2 * (854 * (sc.xd as int)),
            r.dx == 2 * (sc.xd as int),
            s.xn == 0,
            s.wn == 854 * (sc.xd as int),
            s.dx == sc.xd as int,
    ;
    assert((r.yn + r.hn) * s.dy == (s.yn + s.hn) * r.dy) by (nonlinear_arith)
        requires
            r.yn + r.hn == 2 * (480 * (sc.yd as int)),
            r.dy == 2 * (sc.yd as int),
            s.yn == 0,
            s.hn == 480 * (sc.yd as int),
            s.dy == sc.yd as int,
    ;
}

/// A dirty parent makes a clean child effectively dirty.
pub proof fn lemma_parent_dirty_propagates(m: Map<u64, Element>, c: u64, p: u64, fuel: nat)
    requires
        m.contains_key(c),
        m.contains_key(p),
        base_of(m[c]).parent == Some(p),
        base_of(m[p]).dirty,
        fuel >= 1,
    ensures
        spec_eff_dirty(m, m[c], fuel),
{
    assert(spec_eff_dirty(m, m[p], (fuel - 1) as nat));
}

/// A clean child whose clean parent has no parent of its own stays
/// effectively clean.
pub proof fn lemma_clean_chain(m: Map<u64, Element>, c: u64, p: u64, fuel: nat)
    requires
        m.contains_key(c),
        m.contains_key(p),
        base_of(m[c]).parent == Some(p),
        !base_of(m[c]).dirty,
        !base_of(m[p]).dirty,
        base_of(m[p]).parent is None,
    ensures
        !spec_eff_dirty(m, m[c], fuel),
{
    if fuel >= 1 {
        assert(!spec_eff_dirty(m, m[p], (fuel - 1) as nat));
    }
}

/// The topmost element a click hits is the one dispatched: when the
/// most recently inserted element is hit, no element below it is.
pub proof fn lemma_click_topmost(
    m: Map<u64, Element>,
    ord: Seq<u64>,
    sc: Scales,
    mxn: int,
    mxd: int,
    myn: int,
    myd: int,
    fuel: nat,
)
    requires
        ord.len() > 0,
        spec_click_eligible(m, ord.last(), sc, mxn, mxd, myn, myd, fuel),
    ensures
        spec_click_target(m, ord, sc, mxn, mxd, myn, myd, fuel) == Some(ord.last()),
{
}

/// An element the click misses or that has no click callbacks leaves
/// dispatch to the elements below it.
pub proof fn lemma_click_passes_over(
    m: Map<u64, Element>,
    ord: Seq<u64>,
    sc: Scales,
    mxn: int,
    mxd: int,
    myn: int,
    myd: int,
    fuel: nat,
)
    requires
        ord.len() > 0,
        !spec_click_eligible(m, ord.last(), sc, mxn, mxd, myn, myd, fuel),
    ensures
        spec_click_target(m, ord, sc, mxn, mxd, myn, myd, fuel) == spec_click_target(
            m,
            ord.drop_last(),
            sc,
            mxn,
            mxd,
            myn,
            myd,
            fuel,
        ),
{
}

/// Hover dispatch calls an element exactly when its recorded state
/// differs from the pointer's position: entering or leaving gives one
/// call with the new state, holding gives none.
pub proof fn lemma_hover_transition(
    m: Map<u64, Element>,
    ord: Seq<u64>,
    sc: Scales,
    mxn: int,
    mxd: int,
    myn: int,
    myd: int,
    fuel: nat,
)
    requires
        ord.len() > 0,
        m.contains_key(ord.last()),
        base_of(m[ord.last()]).hover_funcs.len() > 0,
    ensures
        base_of(m[ord.last()]).hovered != spec_over(m, ord.last(), sc, mxn, mxd, myn, myd, fuel)
            ==> spec_hover_calls(m, ord, sc, mxn, mxd, myn, myd, fuel) == seq![
            HoverCall { id: ord.last(), over: spec_over(m, ord.last(), sc, mxn, mxd, myn, myd, fuel) },
        ] + spec_hover_calls(m, ord.drop_last(), sc, mxn, mxd, myn, myd, fuel),
        base_of(m[ord.last()]).hovered == spec_over(m, ord.last(), sc, mxn, mxd, myn, myd, fuel)
            ==> spec_hover_calls(m, ord, sc, mxn, mxd, myn, myd, fuel) == spec_hover_calls(
            m,
            ord.drop_last(),
            sc,
            mxn,
            mxd,
            myn,
            myd,
            fuel,
        ),
{
}

/// Copy a list of callback tokens.
fn copy_tokens(v: &Vec<u64>) -> (r: Vec<u64>)
    ensures
        r@ == v@,
{
    let mut out: Vec<u64> = Vec::new();
    let mut i: usize = 0;
    while i < v.len()
        invariant
            i <= v@.len(),
            out@ == v@.take(i as int),
        decreases v@.len() - i,
    {
        let t = v[i];
        out.push(t);
        proof {
            assert(out@ =~= v@.take(i + 1));
        }
        i = i + 1;
    }
    proof {
        assert(v@.take(v@.len() as int) == v@);
    }
    out
}

} // verus!
