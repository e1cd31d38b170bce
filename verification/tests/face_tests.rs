use ndcell::axis::Axis;
use ndcell::face::{Face, FaceSign};
use ndcell::ndrect::BigRect;
use ndcell::ndvec::BigVec;

#[test]
fn axes_are_numbered_in_order() {
    let all = [Axis::X, Axis::Y, Axis::Z, Axis::W, Axis::U, Axis::V];
    for (i, axis) in all.iter().enumerate() {
        assert_eq!(axis.index(), i);
        assert_eq!(Axis::from_index(i), Some(*axis));
        assert!(axis.in_dimension(i + 1));
        assert!(!axis.in_dimension(i));
    }
    assert_eq!(Axis::from_index(6), None);
}

#[test]
fn faces_by_axis_and_sign() {
    assert_eq!(Face::positive(Axis::X), Face::PosX);
    assert_eq!(Face::positive(Axis::Y), Face::PosY);
    assert_eq!(Face::positive(Axis::Z), Face::PosZ);
    assert_eq!(Face::negative(Axis::X), Face::NegX);
    assert_eq!(Face::negative(Axis::Y), Face::NegY);
    assert_eq!(Face::negative(Axis::Z), Face::NegZ);
    assert_eq!(
        Face::all(),
        [Face::PosX, Face::PosY, Face::PosZ, Face::NegX, Face::NegY, Face::NegZ]
    );
    for face in Face::all() {
        let again = match face.sign() {
            FaceSign::Plus => Face::positive(face.normal_axis()),
            FaceSign::Minus => Face::negative(face.normal_axis()),
        };
        assert_eq!(again, face);
        assert_eq!(face.opposite().opposite(), face);
        assert_ne!(face.opposite(), face);
    }
}

#[test]
fn plane_axes_of_faces() {
    assert_eq!(Face::PosX.plane_axes(), [Axis::Y, Axis::Z]);
    assert_eq!(Face::PosY.plane_axes(), [Axis::Z, Axis::X]);
    assert_eq!(Face::PosZ.plane_axes(), [Axis::X, Axis::Y]);
    assert_eq!(Face::NegX.plane_axes(), [Axis::Z, Axis::Y]);
    assert_eq!(Face::NegY.plane_axes(), [Axis::X, Axis::Z]);
    assert_eq!(Face::NegZ.plane_axes(), [Axis::Y, Axis::X]);
}

#[test]
fn normals_of_faces() {
    assert_eq!(Face::PosX.normal(), [1, 0, 0]);
    assert_eq!(Face::PosY.normal(), [0, 1, 0]);
    assert_eq!(Face::PosZ.normal(), [0, 0, 1]);
    assert_eq!(Face::NegX.normal(), [-1, 0, 0]);
    assert_eq!(Face::NegY.normal(), [0, -1, 0]);
    assert_eq!(Face::NegZ.normal(), [0, 0, -1]);
}

#[test]
fn cuboid_flattened_to_a_face() {
    let cuboid = BigRect::span(&BigVec::<3>::from_i64([1, 2, 3]), &BigVec::<3>::from_i64([4, 6, 8]));
    let top = Face::PosY.of(&cuboid);
    assert_eq!(top.min.to_i64(), Some(vec![1, 6, 3]));
    assert_eq!(top.max.to_i64(), Some(vec![4, 6, 8]));
    let back = Face::NegZ.of(&cuboid);
    assert_eq!(back.min.to_i64(), Some(vec![1, 2, 3]));
    assert_eq!(back.max.to_i64(), Some(vec![4, 6, 3]));
}

#[test]
fn positions_are_clipped_to_the_visible_render_cells() {
    let view = ndcell::viewport::Viewport {
        origin: BigVec::<2>::from_i64([0, 0]),
        render_cell_layer: 2,
        visible_min: [0, 0],
        visible_max: [10, 10],
    };
    let at = |x: i64, y: i64| BigVec::<2>::from_i64([x, y]);
    assert_eq!(view.clip_cell_pos_to_visible_render_cells(&at(5, -3)), [1, -1]);
    assert_eq!(view.clip_cell_pos_to_visible_render_cells(&at(43, 40)), [10, 10]);
    assert_eq!(view.clip_cell_pos_to_visible_render_cells(&at(1000, -1000)), [12, -2]);
    assert_eq!(view.clip_cell_pos_to_visible_render_cells(&at(-8, -9)), [-2, -2]);
    let far = BigVec::<2> {
        coords: vec![ndcell::big::BigNum::pow2(90), ndcell::big::BigNum::from_i64(7)],
    };
    assert_eq!(view.clip_cell_pos_to_visible_render_cells(&far), [12, 1]);
    let rect = BigRect::span(&at(-100, 3), &at(17, 100));
    assert_eq!(view.clip_cell_rect_to_visible_render_cells(&rect), ([-2, 0], [4, 12]));
}

#[test]
fn render_cells_follow_the_origin() {
    let view = ndcell::viewport::Viewport {
        origin: BigVec::<2>::from_i64([-6, 100]),
        render_cell_layer: 0,
        visible_min: [-50, -50],
        visible_max: [50, 50],
    };
    let at = |x: i64, y: i64| BigVec::<2>::from_i64([x, y]);
    assert_eq!(view.clip_cell_pos_to_visible_render_cells(&at(0, 0)), [6, -52]);
    assert_eq!(view.clip_cell_pos_to_visible_render_cells(&at(-6, 100)), [0, 0]);
}
