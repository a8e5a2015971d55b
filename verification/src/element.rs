use vstd::prelude::*;
use crate::geometry::{HAttach, VAttach};
use crate::refs::ElementRef;

verus! {

/// State shared by every widget kind. Offsets, sizes and layers are
/// authored in scaled units; `click_funcs` and `hover_funcs` hold the
/// caller's opaque callback tokens, invoked by the host after dispatch.
pub struct Base {
    pub dirty: bool,
    pub data: Vec<u8>,
    pub parent: Option<u64>,
    pub should_draw: bool,
    pub layer: i32,
    pub x: i16,
    pub y: i16,
    pub v_attach: VAttach,
    pub h_attach: HAttach,
    pub click_funcs: Vec<u64>,
    pub hover_funcs: Vec<u64>,
    pub hovered: bool,
}

impl Base {
    /// A fresh base: dirty (never drawn), visible, attached to the top
    /// left of the screen, with no parent and no callbacks.
    pub fn new() -> (b: Base)
        ensures
            b.dirty == true,
            b.data@ == Seq::<u8>::empty(),
            b.parent is None,
            b.should_draw == true,
            b.layer == 0,
            b.x == 0,
            b.y == 0,
            b.v_attach == VAttach::Top,
            b.h_attach == HAttach::Left,
            b.click_funcs@ == Seq::<u64>::empty(),
            b.hover_funcs@ == Seq::<u64>::empty(),
            b.hovered == false,
    {
        Base {
            dirty: true,
            data: Vec::new(),
            parent: None,
            should_draw: true,
            layer: 0,
            x: 0,
            y: 0,
            v_attach: VAttach::Top,
            h_attach: HAttach::Left,
            click_funcs: Vec::new(),
            hover_funcs: Vec::new(),
            hovered: false,
        }
    }

    /// Lazy layer field: the dirty flag is raised exactly when the
    /// value changes, and untouched when it does not.
    pub fn set_layer(&mut self, val: i32)
        ensures
            *final(self) == (Base { layer: val, dirty: old(self).dirty || val != old(self).layer, ..*old(self) }),
    {
        if self.layer != val {
            self.layer = val;
            self.dirty = true;
        }
    }

    /// Lazy horizontal offset field.
    pub fn set_x(&mut self, val: i16)
        ensures
            *final(self) == (Base { x: val, dirty: old(self).dirty || val != old(self).x, ..*old(self) }),
    {
        if self.x != val {
            self.x = val;
            self.dirty = true;
        }
    }

    /// Lazy vertical offset field.
    pub fn set_y(&mut self, val: i16)
        ensures
            *final(self) == (Base { y: val, dirty: old(self).dirty || val != old(self).y, ..*old(self) }),
    {
        if self.y != val {
            self.y = val;
            self.dirty = true;
        }
    }

    /// Lazy vertical attachment field.
    pub fn set_v_attach(&mut self, val: VAttach)
        ensures
            *final(self) == (Base {
                v_attach: val,
                dirty: old(self).dirty || val != old(self).v_attach,
                ..*old(self)
            }),
    {
        if self.v_attach != val {
            self.v_attach = val;
            self.dirty = true;
        }
    }

    /// Lazy horizontal attachment field.
    pub fn set_h_attach(&mut self, val: HAttach)
        ensures
            *final(self) == (Base {
                h_attach: val,
                dirty: old(self).dirty || val != old(self).h_attach,
                ..*old(self)
            }),
    {
        if self.h_attach != val {
            self.h_attach = val;
            self.dirty = true;
        }
    }

    /// Attach this element below another one; always dirties.
    pub fn set_parent<T>(&mut self, other: &ElementRef<T>)
        ensures
            *final(self) == (Base { parent: Some(other.id()), dirty: true, ..*old(self) }),
    {
        let id = other.raw();
        self.parent = Some(id);
        self.dirty = true;
    }

    /// Register a click callback token, invoked in registration order.
    pub fn add_click_func(&mut self, f: u64)
        ensures
            *final(self) == (Base { click_funcs: final(self).click_funcs, ..*old(self) }),
            final(self).click_funcs@ == old(self).click_funcs@.push(f),
    {
        self.click_funcs.push(f);
    }

    /// Register a hover callback token, invoked on hover transitions.
    pub fn add_hover_func(&mut self, f: u64)
        ensures
            *final(self) == (Base { hover_funcs: final(self).hover_funcs, ..*old(self) }),
            final(self).hover_funcs@ == old(self).hover_funcs@.push(f),
    {
        self.hover_funcs.push(f);
    }
}

/// An image widget: its intrinsic size is the authored texture size.
pub struct Image {
    pub base: Base,
    pub width: i16,
    pub height: i16,
}

/// A sprite-batch widget with a fixed authored extent.
pub struct Batch {
    pub base: Base,
    pub width: i16,
    pub height: i16,
}

/// A text widget; its size is the measured extent of its content.
pub struct Text {
    pub base: Base,
    pub width: i16,
    pub height: i16,
}

/// A formatted rich-text widget with a measured extent.
pub struct Formatted {
    pub base: Base,
    pub width: i16,
    pub height: i16,
}

impl Image {
    pub fn new(width: i16, height: i16) -> (r: Image)
        ensures
            r.width == width,
            r.height == height,
            fresh_base(r.base),
    {
        Image { base: Base::new(), width, height }
    }
}

impl Batch {
    pub fn new(width: i16, height: i16) -> (r: Batch)
        ensures
            r.width == width,
            r.height == height,
            fresh_base(r.base),
    {
        Batch { base: Base::new(), width, height }
    }
}

impl Text {
    pub fn new(width: i16, height: i16) -> (r: Text)
        ensures
            r.width == width,
            r.height == height,
            fresh_base(r.base),
    {
        Text { base: Base::new(), width, height }
    }
}

impl Formatted {
    pub fn new(width: i16, height: i16) -> (r: Formatted)
        ensures
            r.width == width,
            r.height == height,
            fresh_base(r.base),
    {
        Formatted { base: Base::new(), width, height }
    }
}

/// The closed set of widget kinds a container can hold.
pub enum Element {
    Image(Image),
    Batch(Batch),
    Text(Text),
    Formatted(Formatted),
}

/// The shared base state of an element, whatever its kind.
pub open spec fn base_of(e: Element) -> Base {
    match e {
        Element::Image(k) => k.base,
        Element::Batch(k) => k.base,
        Element::Text(k) => k.base,
        Element::Formatted(k) => k.base,
    }
}

/// The element's intrinsic width, in authored units.
pub open spec fn width_of(e: Element) -> i16 {
    match e {
        Element::Image(k) => k.width,
        Element::Batch(k) => k.width,
        Element::Text(k) => k.width,
        Element::Formatted(k) => k.width,
    }
}

/// The element's intrinsic height, in authored units.
pub open spec fn height_of(e: Element) -> i16 {
    match e {
        Element::Image(k) => k.height,
        Element::Batch(k) => k.height,
        Element::Text(k) => k.height,
        Element::Formatted(k) => k.height,
    }
}

/// The same element with its base state replaced; the kind and the
/// kind-specific fields stay.
pub open spec fn with_base(e: Element, b: Base) -> Element {
    match e {
        Element::Image(k) => Element::Image(Image { base: b, width: k.width, height: k.height }),
        Element::Batch(k) => Element::Batch(Batch { base: b, width: k.width, height: k.height }),
        Element::Text(k) => Element::Text(Text { base: b, width: k.width, height: k.height }),
        Element::Formatted(k) => Element::Formatted(
            Formatted { base: b, width: k.width, height: k.height },
        ),
    }
}

impl Element {
    pub fn base(&self) -> (b: &Base)
        ensures
            *b == base_of(*self),
    {
        match self {
            Element::Image(k) => &k.base,
            Element::Batch(k) => &k.base,
            Element::Text(k) => &k.base,
            Element::Formatted(k) => &k.base,
        }
    }

    pub fn size(&self) -> (s: (i16, i16))
        ensures
            s.0 == width_of(*self),
            s.1 == height_of(*self),
    {
        match self {
            Element::Image(k) => (k.width, k.height),
            Element::Batch(k) => (k.width, k.height),
            Element::Text(k) => (k.width, k.height),
            Element::Formatted(k) => (k.width, k.height),
        }
    }

    pub fn set_dirty(&mut self, dirty: bool)
        ensures
            *final(self) == with_base(*old(self), Base { dirty, ..base_of(*old(self)) }),
    {
        match self {
            Element::Image(k) => k.base.dirty = dirty,
            Element::Batch(k) => k.base.dirty = dirty,
            Element::Text(k) => k.base.dirty = dirty,
            Element::Formatted(k) => k.base.dirty = dirty,
        }
    }

    /// Record the new hover state and report whether it changed; a
    /// change is what triggers the element's hover callbacks.
    pub fn should_call_hover(&mut self, new: bool) -> (call: bool)
        ensures
            call == (base_of(*old(self)).hovered != new),
            *final(self) == with_base(*old(self), Base { hovered: new, ..base_of(*old(self)) }),
    {
        match self {
            Element::Image(k) => {
                let ret = k.base.hovered != new;
                k.base.hovered = new;
                ret
            },
            Element::Batch(k) => {
                let ret = k.base.hovered != new;
                k.base.hovered = new;
                ret
            },
            Element::Text(k) => {
                let ret = k.base.hovered != new;
                k.base.hovered = new;
                ret
            },
            Element::Formatted(k) => {
                let ret = k.base.hovered != new;
                k.base.hovered = new;
                ret
            },
        }
    }

    /// Lazy horizontal offset, as `Base::set_x`.
    pub fn set_x(&mut self, val: i16)
        ensures
            *final(self) == with_base(
                *old(self),
                Base {
                    x: val,
                    dirty: base_of(*old(self)).dirty || val != base_of(*old(self)).x,
                    ..base_of(*old(self))
                },
            ),
    {
        match self {
            Element::Image(k) => k.base.set_x(val),
            Element::Batch(k) => k.base.set_x(val),
            Element::Text(k) => k.base.set_x(val),
            Element::Formatted(k) => k.base.set_x(val),
        }
    }

    /// Lazy vertical offset, as `Base::set_y`.
    pub fn set_y(&mut self, val: i16)
        ensures
            *final(self) == with_base(
                *old(self),
                Base {
                    y: val,
                    dirty: base_of(*old(self)).dirty || val != base_of(*old(self)).y,
                    ..base_of(*old(self))
                },
            ),
    {
        match self {
            Element::Image(k) => k.base.set_y(val),
            Element::Batch(k) => k.base.set_y(val),
            Element::Text(k) => k.base.set_y(val),
            Element::Formatted(k) => k.base.set_y(val),
        }
    }

    /// Append a click callback token.
    pub fn add_click_func(&mut self, f: u64)
        ensures
            *final(self) == with_base(
                *old(self),
                Base { click_funcs: base_of(*final(self)).click_funcs, ..base_of(*old(self)) },
            ),
            base_of(*final(self)).click_funcs@ == base_of(*old(self)).click_funcs@.push(f),
    {
        match self {
            Element::Image(k) => k.base.add_click_func(f),
            Element::Batch(k) => k.base.add_click_func(f),
            Element::Text(k) => k.base.add_click_func(f),
            Element::Formatted(k) => k.base.add_click_func(f),
        }
    }

    /// Append a hover callback token.
    pub fn add_hover_func(&mut self, f: u64)
        ensures
            *final(self) == with_base(
                *old(self),
                Base { hover_funcs: base_of(*final(self)).hover_funcs, ..base_of(*old(self)) },
            ),
            base_of(*final(self)).hover_funcs@ == base_of(*old(self)).hover_funcs@.push(f),
    {
        match self {
            Element::Image(k) => k.base.add_hover_func(f),
            Element::Batch(k) => k.base.add_hover_func(f),
            Element::Text(k) => k.base.add_hover_func(f),
            Element::Formatted(k) => k.base.add_hover_func(f),
        }
    }

    /// Lazy layer field, as `Base::set_layer`.
    pub fn set_layer(&mut self, val: i32)
        ensures
            *final(self) == with_base(
                *old(self),
                Base {
                    layer: val,
                    dirty: base_of(*old(self)).dirty || val != base_of(*old(self)).layer,
                    ..base_of(*old(self))
                },
            ),
    {
        match self {
            Element::Image(k) => k.base.set_layer(val),
            Element::Batch(k) => k.base.set_layer(val),
            Element::Text(k) => k.base.set_layer(val),
            Element::Formatted(k) => k.base.set_layer(val),
        }
    }

    /// Lazy vertical attachment, as `Base::set_v_attach`.
    pub fn set_v_attach(&mut self, val: VAttach)
        ensures
            *final(self) == with_base(
                *old(self),
                Base {
                    v_attach: val,
                    dirty: base_of(*old(self)).dirty || val != base_of(*old(self)).v_attach,
                    ..base_of(*old(self))
                },
            ),
    {
        match self {
            Element::Image(k) => k.base.set_v_attach(val),
            Element::Batch(k) => k.base.set_v_attach(val),
            Element::Text(k) => k.base.set_v_attach(val),
            Element::Formatted(k) => k.base.set_v_attach(val),
        }
    }

    /// Lazy horizontal attachment, as `Base::set_h_attach`.
    pub fn set_h_attach(&mut self, val: HAttach)
        ensures
            *final(self) == with_base(
                *old(self),
                Base {
                    h_attach: val,
                    dirty: base_of(*old(self)).dirty || val != base_of(*old(self)).h_attach,
                    ..base_of(*old(self))
                },
            ),
    {
        match self {
            Element::Image(k) => k.base.set_h_attach(val),
            Element::Batch(k) => k.base.set_h_attach(val),
            Element::Text(k) => k.base.set_h_attach(val),
            Element::Formatted(k) => k.base.set_h_attach(val),
        }
    }

    /// Attach the element below the named identity; always dirties.
    pub fn set_parent_raw(&mut self, parent: u64)
        ensures
            *final(self) == with_base(
                *old(self),
                Base { parent: Some(parent), dirty: true, ..base_of(*old(self)) },
            ),
    {
        match self {
            Element::Image(k) => {
                k.base.parent = Some(parent);
                k.base.dirty = true;
            },
            Element::Batch(k) => {
                k.base.parent = Some(parent);
                k.base.dirty = true;
            },
            Element::Text(k) => {
                k.base.parent = Some(parent);
                k.base.dirty = true;
            },
            Element::Formatted(k) => {
                k.base.parent = Some(parent);
                k.base.dirty = true;
            },
        }
    }

    /// Toggle visibility; a plain field, so the dirty flag is untouched.
    pub fn set_should_draw(&mut self, val: bool)
        ensures
            *final(self) == with_base(
                *old(self),
                Base { should_draw: val, ..base_of(*old(self)) },
            ),
    {
        match self {
            Element::Image(k) => k.base.should_draw = val,
            Element::Batch(k) => k.base.should_draw = val,
            Element::Text(k) => k.base.should_draw = val,
            Element::Formatted(k) => k.base.should_draw = val,
        }
    }

    /// Replace the element's drawn content bytes.
    pub fn set_data(&mut self, data: Vec<u8>)
        ensures
            *final(self) == with_base(*old(self), Base { data, ..base_of(*old(self)) }),
    {
        match self {
            Element::Image(k) => k.base.data = data,
            Element::Batch(k) => k.base.data = data,
            Element::Text(k) => k.base.data = data,
            Element::Formatted(k) => k.base.data = data,
        }
    }
}

/// A base state as `Base::new` makes it: dirty, visible, top left,
/// no parent, no callbacks, no content.
pub open spec fn fresh_base(b: Base) -> bool {
    &&& b.dirty == true
    &&& b.data@ == Seq::<u8>::empty()
    &&& b.parent is None
    &&& b.should_draw == true
    &&& b.layer == 0
    &&& b.x == 0
    &&& b.y == 0
    &&& b.v_attach == VAttach::Top
    &&& b.h_attach == HAttach::Left
    &&& b.click_funcs@ == Seq::<u64>::empty()
    &&& b.hover_funcs@ == Seq::<u64>::empty()
    &&& b.hovered == false
}

/// A widget kind that can be embedded into, and retrieved from, the
/// element variant union.
pub trait UIElement: Sized {
    /// The variant this kind wraps into.
    spec fn wrap_spec(self) -> Element;

    /// The kind retrieved from a variant, when the variant matches.
    spec fn unwrap_spec(e: Element) -> Option<Self>;

    /// Wrapping then unwrapping gives the value back unchanged.
    proof fn lemma_wrap_roundtrip(self)
        ensures
            Self::unwrap_spec(self.wrap_spec()) == Some(self),
    ;

    fn wrap(self) -> (r: Element)
        ensures
            r == self.wrap_spec(),
    ;

    fn unwrap_ref(e: &Element) -> (r: Option<&Self>)
        ensures
            match r {
                Some(v) => Self::unwrap_spec(*e) == Some(*v),
                None => Self::unwrap_spec(*e) is None,
            },
    ;
}

impl UIElement for Image {
    open spec fn wrap_spec(self) -> Element {
        Element::Image(self)
    }

    open spec fn unwrap_spec(e: Element) -> Option<Image> {
        match e {
            Element::Image(k) => Some(k),
            _ => None,
        }
    }

    proof fn lemma_wrap_roundtrip(self) {
    }

    fn wrap(self) -> Element {
        Element::Image(self)
    }

    fn unwrap_ref(e: &Element) -> Option<&Image> {
        match e {
            Element::Image(k) => Some(k),
            _ => None,
        }
    }
}

impl UIElement for Batch {
    open spec fn wrap_spec(self) -> Element {
        Element::Batch(self)
    }

    open spec fn unwrap_spec(e: Element) -> Option<Batch> {
        match e {
            Element::Batch(k) => Some(k),
            _ => None,
        }
    }

    proof fn lemma_wrap_roundtrip(self) {
    }

    fn wrap(self) -> Element {
        Element::Batch(self)
    }

    fn unwrap_ref(e: &Element) -> Option<&Batch> {
        match e {
            Element::Batch(k) => Some(k),
            _ => None,
        }
    }
}

impl UIElement for Text {
    open spec fn wrap_spec(self) -> Element {
        Element::Text(self)
    }

    open spec fn unwrap_spec(e: Element) -> Option<Text> {
        match e {
            Element::Text(k) => Some(k),
            _ => None,
        }
    }

    proof fn lemma_wrap_roundtrip(self) {
    }

    fn wrap(self) -> Element {
        Element::Text(self)
    }

    fn unwrap_ref(e: &Element) -> Option<&Text> {
        match e {
            Element::Text(k) => Some(k),
            _ => None,
        }
    }
}

impl UIElement for Formatted {
    open spec fn wrap_spec(self) -> Element {
        Element::Formatted(self)
    }

    open spec fn unwrap_spec(e: Element) -> Option<Formatted> {
        match e {
            Element::Formatted(k) => Some(k),
            _ => None,
        }
    }

    proof fn lemma_wrap_roundtrip(self) {
    }

    fn wrap(self) -> Element {
        Element::Formatted(self)
    }

    fn unwrap_ref(e: &Element) -> Option<&Formatted> {
        match e {
            Element::Formatted(k) => Some(k),
            _ => None,
        }
    }
}

} // verus!
