use osmpoi::aggregate::{aggregate_position, arena_of, Arena, Step};
use osmpoi::element::{Decoded, Element, Node, Relation, Way};
use osmpoi::ingest::dump;
use osmpoi::store::{RefKind, Reference};

fn absorb(into: usize, from: usize) -> Step {
    Step::Absorb { into, from }
}

fn settle(id: usize) -> Step {
    Step::Settle { id }
}

fn run(members: Vec<Vec<usize>>, known: Vec<bool>, roots: Vec<usize>) -> (Vec<Step>, Vec<bool>) {
    let n = members.len();
    let arena = Arena::new(members, known).unwrap();
    let (plan, arena) = aggregate_position(arena, &roots);
    (plan, (0..n).map(|i| arena.is_known(i)).collect())
}

#[test]
fn arena_wants_members_in_range() {
    assert!(Arena::new(vec![vec![1], vec![]], vec![false, true]).is_some());
    assert!(Arena::new(Vec::new(), Vec::new()).is_some());
    assert!(Arena::new(vec![vec![2], vec![]], vec![false, true]).is_none());
    assert!(Arena::new(vec![vec![1], vec![]], vec![false]).is_none());
    assert!(Arena::new(vec![vec![0]], vec![false, false]).is_none());
}

#[test]
fn arena_tells_what_is_known() {
    let arena = Arena::new(vec![vec![1], vec![]], vec![false, true]).unwrap();
    assert!(!arena.is_known(0));
    assert!(arena.is_known(1));
    assert!(!arena.is_known(2));
}

#[test]
fn members_are_absorbed_before_settling() {
    // 0 holds the known 1 and 2
    let (plan, known) = run(vec![vec![1, 2], vec![], vec![]], vec![false, true, true], vec![0]);
    assert_eq!(plan, vec![absorb(0, 1), absorb(0, 2), settle(0)]);
    assert_eq!(known, vec![true, true, true]);
}

#[test]
fn unknown_members_are_resolved_first() {
    // 0 -> 1 -> 3, 0 -> 2 -> 3, with 3 known
    let members = vec![vec![1, 2], vec![3], vec![3], vec![]];
    let (plan, known) = run(members, vec![false, false, false, true], vec![0]);
    assert_eq!(
        plan,
        vec![
            absorb(1, 3),
            settle(1),
            absorb(0, 1),
            absorb(2, 3),
            settle(2),
            absorb(0, 2),
            settle(0)
        ]
    );
    assert_eq!(known, vec![true, true, true, true]);
}

#[test]
fn settled_member_is_not_resolved_again() {
    // 0 holds 1 twice, and 2 holds 1 as well
    let members = vec![vec![1, 1], vec![3], vec![1], vec![]];
    let (plan, _) = run(members, vec![false, false, false, true], vec![0, 2]);
    assert_eq!(
        plan,
        vec![
            absorb(1, 3),
            settle(1),
            absorb(0, 1),
            absorb(0, 1),
            settle(0),
            absorb(2, 1),
            settle(2)
        ]
    );
}

#[test]
fn member_under_way_is_skipped() {
    // 0 and 1 hold each other; 1 holds the known 2 as well
    let members = vec![vec![1], vec![0, 2], vec![]];
    let (plan, known) = run(members, vec![false, false, true], vec![0]);
    assert_eq!(plan, vec![absorb(1, 2), settle(1), absorb(0, 1), settle(0)]);
    assert_eq!(known, vec![true, true, true]);
}

#[test]
fn element_that_holds_itself_settles() {
    let (plan, known) = run(vec![vec![0, 0]], vec![false], vec![0]);
    assert_eq!(plan, vec![settle(0)]);
    assert_eq!(known, vec![true]);
}

#[test]
fn element_without_members_settles_empty() {
    let (plan, known) = run(vec![vec![1], vec![]], vec![false, false], vec![0]);
    assert_eq!(plan, vec![settle(1), absorb(0, 1), settle(0)]);
    assert_eq!(known, vec![true, true]);
}

#[test]
fn known_or_missing_roots_take_no_step() {
    let members = vec![vec![1], vec![]];
    let (plan, known) = run(members.clone(), vec![true, false], vec![0, 7, 0]);
    assert_eq!(plan, Vec::new());
    assert_eq!(known, vec![true, false]);
    let (plan, _) = run(members, vec![false, true], vec![0, 0]);
    assert_eq!(plan, vec![absorb(0, 1), settle(0)]);
}

#[test]
fn deep_chain_does_not_recurse() {
    let n = 200_000;
    let mut members: Vec<Vec<usize>> = (0..n).map(|i| vec![i + 1]).collect();
    members.push(Vec::new());
    let mut known = vec![false; n + 1];
    known[n] = true;
    let (plan, known) = run(members, known, vec![0]);
    assert_eq!(plan.len(), 2 * n);
    assert_eq!(plan[0], absorb(n - 1, n));
    assert_eq!(plan[2 * n - 1], settle(0));
    assert!(known.iter().all(|k| *k));
}

#[test]
fn weighted_average_along_the_steps() {
    // positions as (sum, weight): 0 holds 1 and 2; 1 holds the points 3 and 4; 2 is the point 5
    let members = vec![vec![1, 2], vec![3, 4], vec![5], vec![], vec![], vec![]];
    let known = vec![false, false, false, true, true, true];
    let (plan, _) = run(members, known, vec![0]);
    let mut at: Vec<(f64, f64)> = vec![(0., 0.), (0., 0.), (0., 0.), (10., 1.), (20., 1.), (60., 1.)];
    for step in plan {
        match step {
            Step::Absorb { into, from } => {
                at[into].0 += at[from].0 * at[from].1;
                at[into].1 += at[from].1;
            }
            Step::Settle { id } => at[id].0 /= at[id].1,
        }
    }
    assert_eq!(at[1], (15., 2.));
    assert_eq!(at[2], (60., 1.));
    assert_eq!(at[0], (30., 3.));
}

fn node(id: i64) -> Decoded {
    Ok(Element::Node(Node { id, decimicro_lat: 0, decimicro_lon: 0, tags: Vec::new() }))
}

fn way(id: i64, nodes: &[i64]) -> Decoded {
    Ok(Element::Way(Way { id, nodes: nodes.to_vec(), tags: Vec::new() }))
}

fn rel(id: i64, refs: &[(RefKind, i64)]) -> Decoded {
    let refs = refs.iter().map(|(kind, id)| Reference { id: *id, kind: *kind }).collect();
    Ok(Element::Relation(Relation { id, refs, tags: Vec::new() }))
}

#[test]
fn tables_are_laid_out_nodes_first() {
    // positions: nodes 7, 8 at 0, 1; way 7 at 2; relations 7, 9 at 3, 4; what is missing at 5
    let stream = vec![
        rel(7, &[(RefKind::Way, 7), (RefKind::Node, 8), (RefKind::Relation, 9), (RefKind::Way, 1)]),
        node(7),
        way(7, &[8, 7, 5]),
        node(8),
        rel(9, &[(RefKind::Relation, 7), (RefKind::Node, 7)]),
    ];
    let store = dump(stream).unwrap();
    let layout = arena_of(&store).unwrap();
    assert_eq!(layout.roots, vec![3, 4]);
    let known: Vec<bool> = (0..7).map(|i| layout.arena.is_known(i)).collect();
    assert_eq!(known, vec![true, true, false, false, false, false, false]);
    let (plan, arena) = aggregate_position(layout.arena, &layout.roots);
    assert_eq!(
        plan,
        vec![
            // the way, for relation 7
            absorb(2, 1),
            absorb(2, 0),
            settle(5),
            absorb(2, 5),
            settle(2),
            absorb(3, 2),
            absorb(3, 1),
            // relation 9, which skips relation 7 as under way
            absorb(4, 0),
            settle(4),
            absorb(3, 4),
            absorb(3, 5),
            settle(3),
        ]
    );
    assert!((0..6).all(|i| arena.is_known(i)));
}

#[test]
fn empty_tables_have_one_element() {
    let store = dump(Vec::new()).unwrap();
    let layout = arena_of(&store).unwrap();
    assert!(layout.roots.is_empty());
    assert!(!layout.arena.is_known(0));
    let (plan, _) = aggregate_position(layout.arena, &layout.roots);
    assert!(plan.is_empty());
}

#[test]
fn member_that_holds_itself_is_skipped_below_a_root() {
    // 1 is met under 0 and holds itself and the known 2
    let members = vec![vec![1], vec![1, 2, 0], vec![]];
    let (plan, known) = run(members, vec![false, false, true], vec![0]);
    assert_eq!(plan, vec![absorb(1, 2), settle(1), absorb(0, 1), settle(0)]);
    assert_eq!(known, vec![true, true, true]);
}
