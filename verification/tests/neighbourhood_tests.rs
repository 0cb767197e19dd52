use life::rule::neighbourhood::Pattern;

#[test]
fn test_generate_neighbourhood_ok() {
    assert_eq!(
        Pattern::Moore.generate(1),
        vec![
            (-1, -1), (0, -1), (1, -1),
            (-1, 0), (1, 0),
            (-1, 1), (0, 1), (1, 1),
        ]
    );
    assert_eq!(
        Pattern::Moore.generate(3),
        vec![
            (-3, -3), (-2, -3), (-1, -3), (0, -3), (1, -3), (2, -3), (3, -3),
            (-3, -2), (-2, -2), (-1, -2), (0, -2), (1, -2), (2, -2), (3, -2),
            (-3, -1), (-2, -1), (-1, -1), (0, -1), (1, -1), (2, -1), (3, -1),
            (-3, 0), (-2, 0), (-1, 0), (1, 0), (2, 0), (3, 0),
            (-3, 1), (-2, 1), (-1, 1), (0, 1), (1, 1), (2, 1), (3, 1),
            (-3, 2), (-2, 2), (-1, 2), (0, 2), (1, 2), (2, 2), (3, 2),
            (-3, 3), (-2, 3), (-1, 3), (0, 3), (1, 3), (2, 3), (3, 3),
        ]
    );
    assert_eq!(
        Pattern::VonNeumann.generate(1),
        vec![
            (0, -1),
            (-1, 0), (1, 0),
            (0, 1),
        ]
    );
    assert_eq!(
        Pattern::VonNeumann.generate(3),
        vec![
            (0, -3),
            (-1, -2), (0, -2), (1, -2),
            (-2, -1), (-1, -1), (0, -1), (1, -1), (2, -1),
            (-3, 0), (-2, 0), (-1, 0), (1, 0), (2, 0), (3, 0),
            (-2, 1), (-1, 1), (0, 1), (1, 1), (2, 1),
            (-1, 2), (0, 2), (1, 2),
            (0, 3),
        ]
    );
}

#[test]
fn test_neighbourhood_cardinality() {
    // Moore: (2r + 1)^2 - 1; Von Neumann: 2r(r + 1)
    assert_eq!(Pattern::Moore.generate(1).len(), 8);
    assert_eq!(Pattern::Moore.generate(2).len(), 24);
    assert_eq!(Pattern::VonNeumann.generate(1).len(), 4);
    assert_eq!(Pattern::VonNeumann.generate(2).len(), 12);
    assert_eq!(Pattern::VonNeumann.generate(3).len(), 24);
}

#[test]
fn test_neighbourhood_range_zero_is_empty() {
    assert_eq!(Pattern::Moore.generate(0), Vec::<(i32, i32)>::new());
    assert_eq!(Pattern::VonNeumann.generate(0), Vec::<(i32, i32)>::new());
}
