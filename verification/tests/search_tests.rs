use moins::search::Search;

fn to_bytes(s: &str) -> Vec<u8> {
    s.as_bytes().to_vec()
}

#[test]
fn should_go_first_inline() {
    let lines: Vec<Vec<u8>> = vec![
        to_bytes("Le cœur sur l’arbre vous n’aviez qu’à le cueillir,"),
        to_bytes("Sourire et rire, rire et douceur d’outre-sens."),
    ];
    let term = to_bytes("rire");

    let mut result = Search::new(&term, &lines);

    assert_eq!(result.first().0, 4);
    assert_eq!(result.first().1, 2);
}

#[test]
fn should_go_last_inline() {
    let lines: Vec<Vec<u8>> = vec![
        to_bytes("Les jours comme des doigts repliant leurs phalanges."),
        to_bytes("Les fleurs sont desséchées, les graines sont perdues,"),
        to_bytes("La canicule attend les grandes gelées blanches."),
    ];
    let term = to_bytes("les");

    let mut result = Search::new(&term, &lines);

    assert_eq!(result.last().0, 20);
    assert_eq!(result.last().1, 3);
}

#[test]
fn should_go_next() {
    let lines: Vec<Vec<u8>> = vec![
        to_bytes("Au loin, geint une belle qui voudrait lutter"),
        to_bytes("Et qui ne peut, couchée au pied de la colline."),
        to_bytes("Et que le ciel soit misérable ou transparent"),
        to_bytes("On ne peut la voir sans l’aimer."),
    ];
    let term = to_bytes("peut");

    let mut result = Search::new(&term, &lines);

    let next = result.next().unwrap();
    assert_eq!((next.0, next.1), (10, 2));

    let next = result.next().unwrap();
    assert_eq!((next.0, next.1), (6, 4));

    let next = result.next();
    assert!(!next.is_some());
}

#[test]
fn should_go_prev() {
    let lines: Vec<Vec<u8>> = vec![
        to_bytes("Au loin, geint une belle qui voudrait lutter"),
        to_bytes("Et qui ne peut, couchée au pied de la colline."),
        to_bytes("Et que le ciel soit misérable ou transparent"),
        to_bytes("On ne peut la voir sans l’aimer."),
    ];
    let term = to_bytes("peut");

    let mut result = Search::new(&term, &lines);

    println!("{:?}", result);
    let prev = result.prev();
    assert!(!prev.is_some());

    let _ = result.next().unwrap();
    let _ = result.next().unwrap();
    let _ = result.next();

    let prev = result.prev().unwrap();
    assert_eq!((prev.0, prev.1), (6, 4));
}

#[test]
fn first_then_next_enumerates_every_match_once() {
    let lines: Vec<Vec<u8>> = vec![
        to_bytes("Les jours comme des doigts repliant leurs phalanges."),
        to_bytes("Les fleurs sont desséchées, les graines sont perdues,"),
        to_bytes("La canicule attend les grandes gelées blanches."),
    ];
    let term = to_bytes("les");

    let mut result = Search::new(&term, &lines);

    let first = result.first();
    assert_eq!(first, (31, 2));

    let mut visited: Vec<(usize, usize)> = Vec::new();
    while let Some(coord) = result.next() {
        visited.push(coord);
    }
    assert_eq!(visited, vec![(30, 2), (19, 3)]);

    // the walk ends where `last` points, columns there being one-based
    let last = result.last();
    let end = visited[visited.len() - 1];
    assert_eq!(last, (end.0 + 1, end.1));
}

#[test]
fn prev_walks_back_in_reverse_order() {
    let lines: Vec<Vec<u8>> = vec![
        to_bytes("Les jours comme des doigts repliant leurs phalanges."),
        to_bytes("Les fleurs sont desséchées, les graines sont perdues,"),
        to_bytes("La canicule attend les grandes gelées blanches."),
    ];
    let term = to_bytes("les");

    let mut result = Search::new(&term, &lines);
    while result.next().is_some() {}

    assert_eq!(result.prev(), Some((19, 3)));
    assert_eq!(result.prev(), Some((30, 2)));
    assert_eq!(result.prev(), None);
}

#[test]
fn is_empty_true_iff_term_absent() {
    let lines: Vec<Vec<u8>> = vec![
        to_bytes("Au loin, geint une belle qui voudrait lutter"),
        to_bytes("Et qui ne peut, couchée au pied de la colline."),
    ];

    let mut absent = Search::new(&to_bytes("zzz"), &lines);
    assert!(absent.is_empty());
    assert_eq!(absent.next(), None);

    let mut present = Search::new(&to_bytes("peut"), &lines);
    assert!(!present.is_empty());
}

#[test]
fn size_counts_every_match() {
    let lines: Vec<Vec<u8>> = vec![
        to_bytes("Le cœur sur l’arbre vous n’aviez qu’à le cueillir,"),
        to_bytes("Sourire et rire, rire et douceur d’outre-sens."),
    ];

    let mut result = Search::new(&to_bytes("rire"), &lines);
    assert_eq!(result.size(), 3);
    assert_eq!(result.size(), 3);
    assert_eq!(result.term_len, 4);
}

#[test]
fn empty_term_matches_nothing() {
    let lines: Vec<Vec<u8>> = vec![to_bytes("abc"), to_bytes("")];

    let mut result = Search::new(&to_bytes(""), &lines);
    assert!(result.is_empty());
    assert_eq!(result.next(), None);
    assert_eq!(result.prev(), None);
}
