use graphlib::{OwningIterator, VertexId};
use std::collections::VecDeque;

#[test]
fn it_yields_correct_vertex_ids() {
    let ids: VecDeque<VertexId> = vec![VertexId::new(1), VertexId::new(2), VertexId::new(3)]
        .iter()
        .cloned()
        .collect();
    let mut iter = OwningIterator::new(ids.clone());

    assert_eq!(iter.next(), Some(ids[0]));
    assert_eq!(iter.next(), Some(ids[1]));
    assert_eq!(iter.next(), Some(ids[2]));
    assert_eq!(iter.next(), None);
}
