use gall_script::circle_layout::CircleLayout;
use gall_script::phrase::Phrase;

fn plan_of(text: &str) -> CircleLayout {
    let p = Phrase::new(text);
    let mut plan = CircleLayout::new();
    plan.layout(&p);
    plan
}

#[test]
fn single_letter_phrase_circle() {
    // One word, one node, a circle of radius 20 at the origin.
    let plan = plan_of("A");
    assert_eq!(plan.circle_list.len(), 1);
    let c = &plan.circle_list[0];
    assert_eq!(c.letter_count, 1);
    assert_eq!(c.radius, 20);
    assert_eq!(c.attach, None);
    assert_eq!(c.center, Some((0, 0)));
    assert_eq!(c.rotation, Some((-90, 1)));
}

#[test]
fn first_circle_is_at_origin_rotated_up() {
    for text in ["CAT DOG", "HELLO", "Z A B", "BBZ"] {
        let plan = plan_of(text);
        let c = &plan.circle_list[0];
        assert_eq!(c.center, Some((0, 0)));
        assert_eq!(c.rotation, Some((-90, 1)));
        assert_eq!(c.attach, None);
    }
}

#[test]
fn radius_is_twenty_per_letter() {
    let plan = plan_of("HELLO");
    assert_eq!(plan.circle_list[0].letter_count, 5);
    assert_eq!(plan.circle_list[0].radius, 100);
    assert_eq!(plan.circle_list[0].rotation, Some((-90, 1)));
}

#[test]
fn unshared_first_letter_stacks_below() {
    // 'D' does not occur in "CAT": the second circle stacks straight below,
    // at the two radii's distance, with the 20-degree seam gap folded into
    // its rotation.
    let plan = plan_of("CAT DOG");
    assert_eq!(plan.circle_list.len(), 2);
    let c = &plan.circle_list[1];
    assert_eq!(c.attach, None);
    assert_eq!(c.center, Some((0, 120)));
    assert_eq!(c.rotation, Some((340 - 270, 3)));
}

#[test]
fn shared_first_letter_attaches() {
    // "BAD" starts with 'B', which "CAB" holds at position 2: the second
    // circle attaches at that node instead of stacking, and its center and
    // rotation are left to the trigonometry downstream.
    let plan = plan_of("CAB BAD");
    let c = &plan.circle_list[1];
    assert_eq!(c.attach, Some(2));
    assert_eq!(c.center, None);
    assert_eq!(c.rotation, None);
}

#[test]
fn attachment_picks_first_occurrence() {
    // "ADA" canonicalizes to "AD"; "AB" starts with 'A', found first at
    // position 0 of the previous word.
    let plan = plan_of("ADA AB");
    assert_eq!(plan.circle_list[1].attach, Some(0));
}

#[test]
fn stacking_continues_down_the_chain() {
    // "AB CD EF": no shared letters anywhere, all circles stack.
    let plan = plan_of("AB CD EF");
    assert_eq!(plan.circle_list[0].center, Some((0, 0)));
    assert_eq!(plan.circle_list[1].center, Some((0, 80)));
    assert_eq!(plan.circle_list[2].center, Some((0, 160)));
    for c in &plan.circle_list {
        assert_eq!(c.attach, None);
    }
}

#[test]
fn attachment_clears_exact_centers_downstream() {
    // After an attached circle, later centers depend on trigonometry and
    // are no longer planned exactly, even where stacking resumes.
    let plan = plan_of("CAB BAD XY");
    assert_eq!(plan.circle_list[1].center, None);
    assert_eq!(plan.circle_list[2].attach, None);
    assert_eq!(plan.circle_list[2].center, None);
    assert_eq!(plan.circle_list[2].rotation, Some((340 - 180, 2)));
}

#[test]
fn layout_twice_gives_identical_plans() {
    let a = plan_of("PACK MY BOX");
    let b = plan_of("PACK MY BOX");
    assert_eq!(a.circle_list.len(), b.circle_list.len());
    for (x, y) in a.circle_list.iter().zip(b.circle_list.iter()) {
        assert_eq!(x.letter_count, y.letter_count);
        assert_eq!(x.radius, y.radius);
        assert_eq!(x.attach, y.attach);
        assert_eq!(x.center, y.center);
        assert_eq!(x.rotation, y.rotation);
    }
}

#[test]
fn fresh_circle_has_default_placement() {
    let p = Phrase::new("HELLO");
    let c = gall_script::circle_layout::Circle::new(&p.phrase_words[0]);
    assert_eq!(c.letter_count, 5);
    assert_eq!(c.radius, 100);
    assert_eq!(c.attach, None);
    assert_eq!(c.center, Some((0, 0)));
    assert_eq!(c.rotation, Some((-90, 1)));
}

#[test]
fn default_word_is_empty() {
    let w = gall_script::phrase::Word::default();
    assert!(w.text.is_empty());
    assert!(w.nodes.is_empty());
}

#[test]
fn empty_phrase_has_empty_plan() {
    let plan = plan_of("");
    assert_eq!(plan.circle_list.len(), 0);
}
