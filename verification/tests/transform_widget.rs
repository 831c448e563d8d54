use dyn_widget::layout::perform_layout;
use dyn_widget::widget::{BoxClamp, Render, Size, Transform, TransformWidget, Widget};
use dyn_widget::widget_tree::WidgetTree;

fn transform(m11: f32, m12: f32, m21: f32, m22: f32, m31: f32, m32: f32) -> Transform {
    Transform {
        m11: m11.to_bits(),
        m12: m12.to_bits(),
        m21: m21.to_bits(),
        m22: m22.to_bits(),
        m31: m31.to_bits(),
        m32: m32.to_bits(),
    }
}

#[test]
fn smoke() {
    let widget = Widget::new(Render::Transform(TransformWidget::new(transform(
        2., 0., 0., 2., 0., 0.,
    ))))
    .with_child(Widget::new(Render::SizedBox(Size::new(100, 100))));

    let tree = WidgetTree::new(widget);
    let clamp = BoxClamp { min: Size::zero(), max: Size::new(800, 800) };
    let size = perform_layout(&tree.arena, tree.root.unwrap(), clamp);

    assert_eq!(size, Size::new(100, 100));
}

#[test]
fn transform_is_carried_bit_for_bit() {
    let t = transform(2., 0.5, -0., 2., 1e-3, f32::MAX);
    let w = TransformWidget::new(t);
    assert_eq!(w.transform, t);
    assert_eq!(f32::from_bits(w.transform.m12), 0.5);
    assert_eq!(f32::from_bits(w.transform.m32), f32::MAX);
}

#[test]
fn transform_without_child_has_no_size() {
    let widget = Widget::new(Render::Transform(TransformWidget::new(transform(
        1., 0., 0., 1., 0., 0.,
    ))));
    let tree = WidgetTree::new(widget);
    let clamp = BoxClamp { min: Size::zero(), max: Size::new(800, 800) };
    assert_eq!(perform_layout(&tree.arena, tree.root.unwrap(), clamp), Size::zero());
}

#[test]
fn only_a_transform_has_a_transform() {
    let t = transform(0., 1., -1., 0., 5., 5.);
    let tree = WidgetTree::new(
        Widget::new(Render::Transform(TransformWidget::new(t))).with_child(Widget::void()),
    );
    let root = tree.root.unwrap();
    assert_eq!(tree.arena.get(root).get_transform(), Some(t));
    let child = tree.arena.first_child(root).unwrap();
    assert_eq!(tree.arena.get(child).get_transform(), None);
}
