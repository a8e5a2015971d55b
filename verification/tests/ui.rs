use ui_core::container::{Container, Mode};
use ui_core::element::{Formatted, Image, Text};
use ui_core::geometry::{HAttach, Scale, VAttach};
use ui_core::refs::ElementRef;

#[test]
fn add_then_get_returns_inserted_value() {
    let mut c = Container::new();
    let r1 = c.add(Image::new(100, 40));
    let r2 = c.add(Image::new(7, 9));
    assert_ne!(r1.raw(), r2.raw());
    let v1 = c.get(&r1).expect("first element is live");
    assert_eq!(v1.width, 100);
    assert_eq!(v1.height, 40);
    assert!(v1.base.dirty);
    assert!(v1.base.should_draw);
    let v2 = c.get(&r2).expect("second element is live");
    assert_eq!(v2.width, 7);
    assert_eq!(v2.height, 9);
}

#[test]
fn identities_stay_distinct_across_kinds() {
    let mut c = Container::new();
    let a = c.add(Image::new(1, 1));
    let b = c.add(Text::new(2, 2));
    let d = c.add(Formatted::new(3, 3));
    assert_ne!(a.raw(), b.raw());
    assert_ne!(b.raw(), d.raw());
    assert_ne!(a.raw(), d.raw());
}

#[test]
fn removed_identity_is_dead() {
    let mut c = Container::new();
    let r = c.add(Image::new(10, 10));
    assert!(c.contains_raw(r.raw()));
    c.remove(&r);
    // the identity is gone: a lookup or second removal would be
    // programmer misuse, which callers detect here
    assert!(!c.contains_raw(r.raw()));
}

#[test]
fn dead_identity_cannot_be_mutated() {
    let mut c = Container::new();
    let stale: ElementRef<Text> = ElementRef::default();
    assert_eq!(stale.raw(), 0);
    assert!(!c.contains_raw(0));
    assert!(!c.set_x(&stale, 5));
    assert!(!c.set_dirty(&stale, true));
}

#[test]
fn lazy_field_set_to_same_value_keeps_clean() {
    let mut img = Image::new(10, 10);
    img.base.dirty = false;
    img.base.set_x(0);
    assert!(!img.base.dirty);
    img.base.set_y(0);
    assert!(!img.base.dirty);
    img.base.set_layer(0);
    assert!(!img.base.dirty);
    img.base.set_h_attach(HAttach::Left);
    assert!(!img.base.dirty);
    img.base.set_v_attach(VAttach::Top);
    assert!(!img.base.dirty);
}

#[test]
fn lazy_field_change_raises_dirty_each_time() {
    let mut img = Image::new(10, 10);
    img.base.dirty = false;
    img.base.set_x(5);
    assert!(img.base.dirty);
    assert_eq!(img.base.x, 5);
    img.base.dirty = false;
    img.base.set_h_attach(HAttach::Center);
    assert!(img.base.dirty);
    img.base.dirty = false;
    img.base.set_layer(3);
    assert!(img.base.dirty);
}

#[test]
fn left_top_zero_offset_resolves_to_origin() {
    let mut c = Container::new();
    let _r = c.add(Image::new(100, 40));
    let out = c.tick(854, 480, 1);
    assert_eq!(out.draws.len(), 1);
    let rg = out.draws[0].region;
    assert_eq!(rg.xn, 0);
    assert_eq!(rg.yn, 0);
    // width is 100 scaled units: wn / dx == 100
    assert_eq!(rg.wn, 100 * rg.dx);
    assert_eq!(rg.hn, 40 * rg.dy);
}

#[test]
fn right_bottom_zero_offset_touches_screen_edges() {
    let mut c = Container::new();
    let mut img = Image::new(100, 40);
    img.base.set_h_attach(HAttach::Right);
    img.base.set_v_attach(VAttach::Bottom);
    let _r = c.add(img);
    let out = c.tick(854, 480, 1);
    assert_eq!(out.draws.len(), 1);
    let rg = out.draws[0].region;
    // right edge at 854 scaled units, bottom edge at 480
    assert_eq!(rg.xn + rg.wn, 854 * rg.dx);
    assert_eq!(rg.yn + rg.hn, 480 * rg.dy);
    // so the origin is at (754, 440)
    assert_eq!(rg.xn, 754 * rg.dx);
    assert_eq!(rg.yn, 440 * rg.dy);
}

#[test]
fn scaled_factors_invert_the_viewport_exactly() {
    let c = Container::new();
    let sc = c.mode_scales(1708, 960);
    assert_eq!(sc.xn as u64 * 1708, 854 * sc.xd as u64);
    assert_eq!(sc.yn as u64 * 960, 480 * sc.yd as u64);
    let sc2 = c.mode_scales(1000, 700);
    assert_eq!(sc2.xn as u64 * 1000, 854 * sc2.xd as u64);
    assert_eq!(sc2.yn as u64 * 700, 480 * sc2.yd as u64);
}

#[test]
fn double_size_viewport_scenario() {
    // Viewport exactly twice the 854x480 reference; element authored at
    // offset (10, 10), size (100, 40), Left/Top, no parent.
    let mut c = Container::new();
    let mut img = Image::new(100, 40);
    img.base.set_x(10);
    img.base.set_y(10);
    let _r = c.add(img);
    let out = c.tick(1708, 960, 1);
    assert_eq!(out.draws.len(), 1);
    let rg = out.draws[0].region;
    // scale is 854/1708 == 1/2, so the scaled-space region is
    // (5, 5, 50, 20) ...
    assert_eq!(2 * rg.xn, 10 * rg.dx);
    assert_eq!(2 * rg.yn, 10 * rg.dy);
    assert_eq!(2 * rg.wn, 100 * rg.dx);
    assert_eq!(2 * rg.hn, 40 * rg.dy);
    // ... and the pixel-space region (inverse scale) is the authored
    // (10, 10, 100, 40): px == scaled * width / 854.
    assert_eq!(rg.xn as i128 * 1708, 10 * 854 * rg.dx);
    assert_eq!(rg.wn as i128 * 1708, 100 * 854 * rg.dx);
    assert_eq!(rg.yn as i128 * 960, 10 * 480 * rg.dy);
    assert_eq!(rg.hn as i128 * 960, 40 * 480 * rg.dy);
}

#[test]
fn unscaled_mode_ignores_viewport() {
    let mut c = Container::new();
    c.set_mode(Mode::Unscaled(Scale { num: 2, den: 1 }));
    let _r = c.add(Image::new(10, 10));
    let out = c.tick(1708, 960, 1);
    assert_eq!(out.draws.len(), 1);
    let rg = out.draws[0].region;
    assert_eq!(rg.wn, 20 * rg.dx);
    assert_eq!(rg.hn, 20 * rg.dy);
}

#[test]
fn offscreen_elements_are_skipped() {
    let mut c = Container::new();
    let mut img = Image::new(10, 10);
    img.base.set_x(2000);
    let _r = c.add(img);
    let out = c.tick(854, 480, 1);
    assert_eq!(out.draws.len(), 0);
}

#[test]
fn invisible_elements_are_skipped() {
    let mut c = Container::new();
    let mut img = Image::new(10, 10);
    img.base.should_draw = false;
    let _r = c.add(img);
    let out = c.tick(854, 480, 1);
    assert_eq!(out.draws.len(), 0);
}

#[test]
fn generation_change_requests_update_hooks() {
    let mut c = Container::new();
    c.add(Image::new(10, 10));
    let out1 = c.tick(854, 480, 1);
    assert!(out1.update_all);
    let out2 = c.tick(854, 480, 1);
    assert!(!out2.update_all);
    let out3 = c.tick(854, 480, 2);
    assert!(out3.update_all);
}

#[test]
fn parent_dirtiness_propagates_to_clean_child() {
    let mut c = Container::new();
    let pref = c.add(Image::new(200, 100));
    let mut child = Image::new(10, 10);
    child.base.set_parent(&pref);
    let cref = c.add(child);
    c.tick(854, 480, 1);
    assert!(c.set_dirty(&pref, false));
    assert!(c.set_dirty(&cref, false));
    // both clean: a steady tick reports both as clean
    let out = c.tick(854, 480, 1);
    assert_eq!(out.draws.len(), 2);
    assert!(!out.draws[0].dirty);
    assert!(!out.draws[1].dirty);
    // dirty parent, clean child: the child redraws too
    assert!(c.set_dirty(&pref, true));
    let out2 = c.tick(854, 480, 1);
    assert_eq!(out2.draws.len(), 2);
    assert_eq!(out2.draws[0].id, pref.raw());
    assert!(out2.draws[0].dirty);
    assert_eq!(out2.draws[1].id, cref.raw());
    assert!(out2.draws[1].dirty);
}

#[test]
fn child_region_is_translated_by_parent() {
    let mut c = Container::new();
    let mut parent = Image::new(200, 100);
    parent.base.set_x(50);
    parent.base.set_y(30);
    let pref = c.add(parent);
    let mut child = Image::new(10, 10);
    child.base.set_parent(&pref);
    child.base.set_x(5);
    child.base.set_y(5);
    let cref = c.add(child);
    let out = c.tick(854, 480, 1);
    assert_eq!(out.draws.len(), 2);
    assert_eq!(out.draws[1].id, cref.raw());
    let rg = out.draws[1].region;
    assert_eq!(rg.xn, 55 * rg.dx);
    assert_eq!(rg.yn, 35 * rg.dy);
}

#[test]
fn click_hits_only_the_topmost_overlapping_element() {
    let mut c = Container::new();
    let r1 = c.add(Image::new(100, 40));
    let r2 = c.add(Image::new(100, 40));
    assert!(c.add_click_func(&r1, 11));
    assert!(c.add_click_func(&r2, 22));
    let hit = c.click_at(10, 10, 854, 480).expect("the point is inside both");
    assert_eq!(hit.0, r2.raw());
    assert_eq!(hit.1, vec![22]);
}

#[test]
fn click_outside_every_region_hits_nothing() {
    let mut c = Container::new();
    let r1 = c.add(Image::new(100, 40));
    assert!(c.add_click_func(&r1, 11));
    assert!(c.click_at(500, 300, 854, 480).is_none());
}

#[test]
fn click_skips_elements_without_callbacks() {
    let mut c = Container::new();
    let r1 = c.add(Image::new(100, 40));
    let _r2 = c.add(Image::new(100, 40));
    assert!(c.add_click_func(&r1, 11));
    let hit = c.click_at(10, 10, 854, 480).expect("the lower element has callbacks");
    assert_eq!(hit.0, r1.raw());
    assert_eq!(hit.1, vec![11]);
}

#[test]
fn hover_calls_fire_only_on_transitions() {
    let mut c = Container::new();
    let r = c.add(Image::new(100, 40));
    assert!(c.add_hover_func(&r, 7));
    // enter: one call with the new state true
    let calls = c.hover_at(10, 10, 854, 480);
    assert_eq!(calls.len(), 1);
    assert_eq!(calls[0].id, r.raw());
    assert!(calls[0].over);
    assert_eq!(c.hover_funcs_of(calls[0].id).unwrap(), vec![7]);
    // hold: no further calls
    let calls2 = c.hover_at(12, 12, 854, 480);
    assert_eq!(calls2.len(), 0);
    // leave: one call with the new state false
    let calls3 = c.hover_at(500, 300, 854, 480);
    assert_eq!(calls3.len(), 1);
    assert_eq!(calls3[0].id, r.raw());
    assert!(!calls3[0].over);
    // stay outside: nothing
    let calls4 = c.hover_at(500, 300, 854, 480);
    assert_eq!(calls4.len(), 0);
}

#[test]
fn hover_examines_every_element_with_callbacks() {
    let mut c = Container::new();
    let r1 = c.add(Image::new(100, 40));
    let r2 = c.add(Image::new(100, 40));
    assert!(c.add_hover_func(&r1, 1));
    assert!(c.add_hover_func(&r2, 2));
    let calls = c.hover_at(10, 10, 854, 480);
    assert_eq!(calls.len(), 2);
    // topmost first
    assert_eq!(calls[0].id, r2.raw());
    assert_eq!(calls[1].id, r1.raw());
    assert!(calls[0].over && calls[1].over);
}

#[test]
fn collection_removes_everything_once() {
    let mut c = Container::new();
    let mut group = ui_core::container::Collection::new();
    let r1 = group.add(c.add(Image::new(10, 10)));
    let r2 = group.add(c.add(Text::new(10, 10)));
    assert!(group.remove_all(&mut c));
    assert!(!c.contains_raw(r1.raw()));
    assert!(!c.contains_raw(r2.raw()));
    // the identities are gone now, so a second pass reports failure
    assert!(!group.remove_all(&mut c));
}

#[test]
fn visibility_toggles_after_insertion() {
    let mut c = Container::new();
    let r = c.add(Image::new(10, 10));
    assert!(c.set_should_draw(&r, false));
    let out = c.tick(854, 480, 1);
    assert_eq!(out.draws.len(), 0);
    assert!(c.set_should_draw(&r, true));
    let out2 = c.tick(854, 480, 1);
    assert_eq!(out2.draws.len(), 1);
}

#[test]
fn reparenting_after_insertion_moves_the_child() {
    let mut c = Container::new();
    let mut parent = Image::new(200, 100);
    parent.base.set_x(50);
    parent.base.set_y(30);
    let pref = c.add(parent);
    let cref = c.add(Image::new(10, 10));
    assert!(c.set_parent(&cref, &pref));
    let out = c.tick(854, 480, 1);
    assert_eq!(out.draws.len(), 2);
    assert_eq!(out.draws[1].id, cref.raw());
    let rg = out.draws[1].region;
    assert_eq!(rg.xn, 50 * rg.dx);
    assert_eq!(rg.yn, 30 * rg.dy);
}

#[test]
fn container_setters_follow_the_lazy_rules() {
    let mut c = Container::new();
    let r = c.add(Image::new(10, 10));
    c.tick(854, 480, 1);
    assert!(c.set_dirty(&r, false));
    // unchanged values leave the element clean
    assert!(c.set_layer(&r, 0));
    assert!(c.set_v_attach(&r, VAttach::Top));
    assert!(c.set_h_attach(&r, HAttach::Left));
    let out = c.tick(854, 480, 1);
    assert!(!out.draws[0].dirty);
    // a changed value raises the dirty flag
    assert!(c.set_layer(&r, 3));
    let out2 = c.tick(854, 480, 1);
    assert!(out2.draws[0].dirty);
    assert!(c.set_dirty(&r, false));
    assert!(c.set_h_attach(&r, HAttach::Center));
    let out3 = c.tick(854, 480, 1);
    assert!(out3.draws[0].dirty);
}
