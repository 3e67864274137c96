use pattern_parse::paths::{iter_visit, visit, Echo, Paths, Tree};

fn sample() -> Tree {
    Tree::Node(
        Box::new(Tree::Leaf(1)),
        Box::new(Tree::Node(Box::new(Tree::Leaf(2)), Box::new(Tree::Leaf(3)))),
    )
}

fn all_paths(input: &Tree) -> Vec<Vec<&Tree>> {
    let mut ps = Paths::new(input);
    let mut out = vec![];
    while let Some(p) = ps.next() {
        out.push(p);
    }
    out
}

fn children(t: &Tree) -> (&Tree, &Tree) {
    match t {
        Tree::Node(a, b) => (a, b),
        _ => panic!("projection failure"),
    }
}

#[test]
fn path_should_create_paths() {
    let input = sample();
    let paths = all_paths(&input);

    assert_eq!(paths.len(), 3);

    // path 1
    assert_eq!(paths[0].len(), 2);
    let (a00, b00) = children(paths[0][0]);
    assert!(matches!(*a00, Tree::Leaf(1)));
    assert!(matches!(*b00, Tree::Node(_, _)));
    assert!(matches!(paths[0][1], Tree::Leaf(1)));

    // path 2
    assert_eq!(paths[1].len(), 3);
    let (a10, b10) = children(paths[1][0]);
    assert!(matches!(*a10, Tree::Leaf(1)));
    assert!(matches!(*b10, Tree::Node(_, _)));
    let (a11, b11) = children(paths[1][1]);
    assert!(matches!(*a11, Tree::Leaf(2)));
    assert!(matches!(*b11, Tree::Leaf(3)));
    assert!(matches!(paths[1][2], Tree::Leaf(2)));

    // path 3
    assert_eq!(paths[2].len(), 3);
    let (a20, b20) = children(paths[2][0]);
    assert!(matches!(*a20, Tree::Leaf(1)));
    assert!(matches!(*b20, Tree::Node(_, _)));
    let (a21, b21) = children(paths[1][1]);
    assert!(matches!(*a21, Tree::Leaf(2)));
    assert!(matches!(*b21, Tree::Leaf(3)));
    assert!(matches!(paths[2][2], Tree::Leaf(3)));
}

#[test]
fn data_pattern_blarg() {
    let x = sample();
    let ps = all_paths(&x);
    println!("====");
    for p in ps {
        for plet in p {
            println!("{:?}", plet);
        }
        println!("\n\n\n");
    }
}

#[test]
fn visits_agree_on_preorder() {
    let x = sample();
    let a: Vec<String> = visit(&x).iter().map(|t| format!("{:?}", t)).collect();
    let b: Vec<String> = iter_visit(&x).iter().map(|t| format!("{:?}", t)).collect();
    assert_eq!(a, b);
    assert_eq!(a.len(), 5);
    assert!(matches!(visit(&x)[1], Tree::Leaf(1)));
    assert!(matches!(visit(&x)[3], Tree::Leaf(2)));
    assert!(matches!(iter_visit(&x)[4], Tree::Leaf(3)));
}

#[test]
fn single_leaf_has_one_path() {
    let x = Tree::Leaf(9);
    let paths = all_paths(&x);
    assert_eq!(paths.len(), 1);
    assert_eq!(paths[0].len(), 1);
    assert_eq!(visit(&x).len(), 1);
}

#[test]
fn echo_lists_children_in_order() {
    let x = sample();
    match x.echo() {
        Echo::Node(_, cs) => {
            assert_eq!(cs.len(), 2);
            assert!(matches!(cs[0], Tree::Leaf(1)));
        }
        Echo::Terminal(_) => panic!("root is a node"),
    }
    assert!(matches!(Tree::Leaf(4).echo(), Echo::Terminal(Tree::Leaf(4))));
}
