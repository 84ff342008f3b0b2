use crulz::sharpen::{classify_as_vec, reverse_vec, Classify, ClassifyIT};

#[test]
fn test_clsf0() {
    let input: Vec<u8> = vec![0, 0, 1, 1, 2, 2, 3, 0, 5, 5, 5];
    let res = input.classify(|&curc| curc).collect();
    assert_eq!(
        res,
        vec![
            (0, vec![0, 0]),
            (1, vec![1, 1]),
            (2, vec![2, 2]),
            (3, vec![3]),
            (0, vec![0]),
            (5, vec![5, 5, 5]),
        ]
    );
}

#[test]
fn test_clsf1() {
    let input: Vec<Option<u8>> =
        vec![Some(0), Some(1), Some(5), Some(5), None, None, Some(0), None];
    let res = input.classify(|curo| curo.is_some()).collect();
    assert_eq!(
        res,
        vec![
            (true, vec![Some(0), Some(1), Some(5), Some(5)]),
            (false, vec![None, None]),
            (true, vec![Some(0)]),
            (false, vec![None]),
        ]
    );
}

#[test]
fn test_clsf2() {
    let input: Vec<Option<Vec<u8>>> =
        vec![Some(vec![0, 0, 1]), Some(vec![0, 1]), None, None, Some(vec![2]), None];
    let res = input.classify(|curo| curo.is_some()).collect();
    assert_eq!(
        res,
        vec![
            (true, vec![Some(vec![0, 0, 1]), Some(vec![0, 1])]),
            (false, vec![None, None]),
            (true, vec![Some(vec![2])]),
            (false, vec![None]),
        ]
    );
}

#[test]
fn test_clsfit2() {
    let input: Vec<Option<Vec<u8>>> =
        vec![Some(vec![0, 0, 1]), Some(vec![0, 1]), None, None, Some(vec![2]), None];
    let res = ClassifyIT::new(input, |curo| curo.is_some()).collect();
    assert_eq!(
        res,
        vec![
            (true, vec![Some(vec![0, 0, 1]), Some(vec![0, 1])]),
            (false, vec![None, None]),
            (true, vec![Some(vec![2])]),
            (false, vec![None]),
        ]
    );
}

#[test]
fn groups_one_after_the_other() {
    let mut it = ClassifyIT::new(vec![1u8, 3, 2, 4, 5], |x: &u8| x % 2 == 0);
    assert_eq!(it.next(), Some((false, vec![1, 3])));
    assert_eq!(it.next(), Some((true, vec![2, 4])));
    assert_eq!(it.next(), Some((false, vec![5])));
    assert_eq!(it.next(), None);
    assert_eq!(it.next(), None);
    let mut empty = ClassifyIT::new(Vec::<u8>::new(), |x: &u8| *x);
    assert_eq!(empty.next(), None);
}

#[test]
fn classify_and_reverse() {
    assert_eq!(classify_as_vec(Vec::<u8>::new(), |x: &u8| *x), vec![]);
    assert_eq!(
        classify_as_vec(vec![b'a', b' ', b' ', b'b'], |x: &u8| *x == b' '),
        vec![(false, vec![b'a']), (true, vec![b' ', b' ']), (false, vec![b'b'])]
    );
    assert_eq!(reverse_vec(vec![1, 2, 3]), vec![3, 2, 1]);
    assert_eq!(reverse_vec(Vec::<u8>::new()), Vec::<u8>::new());
}
