use braid_viz::braid::Braid;
use braid_viz::layout::Primitive;

fn node(x: u64, y: u64) -> Primitive {
    Primitive::Node { x, y }
}

fn segment(x1: u64, y1: u64, x2: u64, y2: u64) -> Primitive {
    Primitive::Segment { x1, y1, x2, y2 }
}

fn is_diagonal(p: &Primitive) -> bool {
    matches!(p, Primitive::Segment { x1, x2, .. } if x1 != x2)
}

#[test]
fn layout_single_positive_crossing() {
    let b = Braid { strands: 3, crossings: vec![1] };
    let prims = b.layout();
    assert_eq!(
        prims,
        vec![
            // row 1: strands 1 and 2 cross (front strand continuous, back
            // strand broken in thirds), strand 3 passes straight down
            node(3, 3),
            segment(3, 3, 6, 6),
            node(6, 3),
            segment(6, 3, 5, 4),
            segment(4, 5, 3, 6),
            node(9, 3),
            segment(9, 3, 9, 6),
            // final row: node markers only
            node(3, 6),
            node(6, 6),
            node(9, 6),
        ]
    );
}

#[test]
fn layout_single_negative_crossing() {
    let b = Braid { strands: 4, crossings: vec![-2] };
    let prims = b.layout();
    assert_eq!(
        prims,
        vec![
            node(3, 3),
            segment(3, 3, 3, 6),
            node(6, 3),
            segment(6, 3, 7, 4),
            segment(8, 5, 9, 6),
            node(9, 3),
            segment(9, 3, 6, 6),
            node(12, 3),
            segment(12, 3, 12, 6),
            node(3, 6),
            node(6, 6),
            node(9, 6),
            node(12, 6),
        ]
    );
}

#[test]
fn crossing_row_has_exactly_two_diagonals_one_continuous() {
    for g in [1i32, -1, 2, -2, 3, -3] {
        let b = Braid { strands: 4, crossings: vec![g] };
        let prims = b.layout();
        // row 1 holds everything before the final row's 4 bare nodes
        let row: Vec<_> = prims[..prims.len() - 4].to_vec();
        let diagonals: Vec<_> = row.iter().filter(|p| is_diagonal(p)).collect();
        // a continuous diagonal spans a whole cell; a broken one is two
        // one-third pieces
        let full: Vec<_> = diagonals
            .iter()
            .filter(|p| matches!(p, Primitive::Segment { y1, y2, .. } if y2 - y1 == 3))
            .collect();
        let thirds: Vec<_> = diagonals
            .iter()
            .filter(|p| matches!(p, Primitive::Segment { y1, y2, .. } if y2 - y1 == 1))
            .collect();
        assert_eq!(full.len(), 1, "one continuous diagonal for g = {}", g);
        assert_eq!(thirds.len(), 2, "one broken diagonal (two pieces) for g = {}", g);
        assert_eq!(diagonals.len(), 3);
        // the two crossing strands start at columns |g| and |g| + 1
        let m = g.unsigned_abs() as u64;
        let mut starts: Vec<u64> = diagonals
            .iter()
            .filter_map(|p| match p {
                Primitive::Segment { x1, y1, .. } if *y1 == 3 => Some(*x1),
                _ => None,
            })
            .collect();
        starts.sort();
        assert_eq!(starts, vec![3 * m, 3 * (m + 1)]);
    }
}

#[test]
fn final_row_emits_nodes_only() {
    let b = Braid { strands: 3, crossings: vec![1, -2] };
    let prims = b.layout();
    let last_row: Vec<_> = prims[prims.len() - 3..].to_vec();
    assert_eq!(last_row, vec![node(3, 9), node(6, 9), node(9, 9)]);
    assert!(!prims[..prims.len() - 3].iter().any(|p| matches!(p, Primitive::Node { y, .. } if *y == 9)));
}

#[test]
fn layout_no_crossings_is_single_node_row() {
    let b = Braid { strands: 2, crossings: vec![] };
    let prims = b.layout();
    assert_eq!(prims, vec![node(3, 3), node(6, 3)]);
}
