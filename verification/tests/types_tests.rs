use ndcell::projection::{ProjectionParams, SimpleProjection};
use ndcell::cache::NodeCache;
use ndcell::ndtree::NdTree;
use ndcell::ndvec::BigVec;
use ndcell::types::{LangError, LangErrorMsg, Span, Type, MAX_VECTOR_LEN};

#[test]
fn sizes_of_types() {
    assert_eq!(Type::Int.size_of(), Some(8));
    assert_eq!(Type::CellState.size_of(), Some(1));
    assert_eq!(Type::Vector(3).size_of(), Some(24));
    assert_eq!(Type::Vector(MAX_VECTOR_LEN).size_of(), Some(2048));
    assert_eq!(Type::Vector(usize::MAX).size_of(), None);
}

#[test]
fn every_type_has_a_runtime_representation() {
    assert!(Type::Int.has_runtime_representation());
    assert!(Type::CellState.has_runtime_representation());
    assert!(Type::Vector(2).has_runtime_representation());
}

#[test]
fn default_type_is_int() {
    assert_eq!(Type::default(), Type::Int);
}

#[test]
fn expect_eq_accepts_equal_types() {
    let span = Span { start: 3, end: 9 };
    assert_eq!(Type::Int.expect_eq(Type::Int, span), Ok(()));
    assert_eq!(Type::Vector(4).expect_eq(Type::Vector(4), span), Ok(()));
}

#[test]
fn expect_eq_reports_both_types() {
    let span = Span { start: 3, end: 9 };
    assert_eq!(
        Type::Vector(4).expect_eq(Type::Vector(5), span),
        Err(LangError {
            span: Some(span),
            msg: LangErrorMsg::TypeError { expected: Type::Vector(5), got: Type::Vector(4) },
        })
    );
    assert_eq!(
        Type::CellState.expect_eq(Type::Int, span),
        Err(LangError {
            span: Some(span),
            msg: LangErrorMsg::TypeError { expected: Type::Int, got: Type::CellState },
        })
    );
}

#[test]
fn expect_int_or_vec_refuses_cell_states() {
    let span = Span { start: 0, end: 1 };
    assert_eq!(Type::Int.expect_int_or_vec(span), Ok(()));
    assert_eq!(Type::Vector(2).expect_int_or_vec(span), Ok(()));
    assert_eq!(
        Type::CellState.expect_int_or_vec(span),
        Err(LangError {
            span: Some(span),
            msg: LangErrorMsg::CustomTypeError {
                expected: "integer or vector",
                got: Type::CellState,
            },
        })
    );
}

#[test]
fn simple_projection_changes_nothing() {
    let mut cache = NodeCache::<2>::new();
    let mut tree = NdTree::new(&mut cache);
    let pos = BigVec::<2>::from_i64([4, -3]);
    tree.set_cell(&mut cache, &pos, 6);
    let projection = SimpleProjection;
    let projected = projection.project(&tree);
    assert_eq!(projected.get_root(), tree.get_root());
    assert_eq!(projected.get_cell(&cache, &pos), 6);
    assert_eq!(projection.unproject_pos(&pos).to_i64(), Some(vec![4, -3]));
    assert_eq!(projection.get_params(), ProjectionParams::Simple);
}
