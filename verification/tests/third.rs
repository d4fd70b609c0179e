use bitonic_sorter::third::{sort, sort_by};
use bitonic_sorter::utils::{is_sorted_ascending, is_sorted_descending, refined_new_u32_vec};
use bitonic_sorter::SortOrder::{Ascending, Descending};

#[derive(Debug, PartialEq)]
struct Student {
    first_name: String,
    last_name: String,
    age: u8,
}

impl Student {
    fn new(first_name: &str, last_name: &str, age: u8) -> Self {
        Self {
            first_name: first_name.to_string(),
            last_name: last_name.to_string(),
            age,
        }
    }
}

#[test]
fn cmp() {
    let a = 1;
    let b = 2;
    println!("{:?}", a.cmp(&b));
    assert_eq!(a.cmp(&b), std::cmp::Ordering::Less);
    assert_eq!(a.cmp(&a), std::cmp::Ordering::Equal);
    assert_eq!(b.cmp(&a), std::cmp::Ordering::Greater);
}

#[test]
fn sort_students_by_age_ascending() {
    let ash = Student::new("Ash", "Ketchum", 10);
    let misty = Student::new("Misty", "Waterflower", 11);
    let brock = Student::new("Brock", "Takeshi", 15);
    let pikachu = Student::new("Pikachu", "Pokemon", 3);

    let mut x = vec![&ash, &misty, &brock, &pikachu];
    let expected = vec![&pikachu, &ash, &misty, &brock];

    assert_eq!(
        sort_by(&mut x, &|a: &&Student,
                          b: &&Student|
         -> std::cmp::Ordering {
            a.age.cmp(&b.age)
        }),
        Ok(())
    );

    assert_eq!(x, expected);
}

#[test]
fn sort_students_by_name_ascending() {
    let ash = Student::new("Ash", "Ketchum", 10);
    let misty = Student::new("Misty", "Waterflower", 10);
    let brock = Student::new("Brock", "Takeshi", 15);
    let pikachu = Student::new("Pikachu", "Pokemon", 3);

    let mut x = vec![&ash, &misty, &brock, &pikachu];
    let expected = vec![&ash, &brock, &misty, &pikachu];

    assert_eq!(
        sort_by(&mut x, &|a: &&Student,
                          b: &&Student|
         -> std::cmp::Ordering {
            a.first_name
                .cmp(&b.first_name)
                .then_with(|| a.last_name.cmp(&b.last_name))
        }),
        Ok(())
    );

    assert_eq!(x, expected);
}

#[test]
fn sort_u32_large() {
    {
        let mut x = refined_new_u32_vec(65536);
        assert_eq!(sort(&mut x, &Ascending), Ok(()));
        assert!(is_sorted_ascending(&x));
    }
    {
        let mut x = refined_new_u32_vec(65536);
        assert_eq!(sort(&mut x, &Descending), Ok(()));
        assert!(is_sorted_descending(&x));
    }
}

#[test]
fn sort_students_by_age_then_name() {
    let ash = Student::new("Ash", "Ketchum", 10);
    let misty = Student::new("Misty", "Waterflower", 10);
    let brock = Student::new("Brock", "Takeshi", 15);
    let pikachu = Student::new("Pikachu", "Pokemon", 3);

    let mut x = vec![&misty, &brock, &ash, &pikachu];
    let expected = vec![&pikachu, &ash, &misty, &brock];

    assert_eq!(
        sort_by(&mut x, &|a: &&Student, b: &&Student| {
            a.age
                .cmp(&b.age)
                .then_with(|| a.first_name.cmp(&b.first_name))
        }),
        Ok(())
    );

    assert_eq!(x, expected);
}

#[test]
fn records_by_age_then_name() {
    let ash = Student::new("Ash", "Ketchum", 10);
    let misty = Student::new("Misty", "Waterflower", 11);
    let brock = Student::new("Brock", "Takeshi", 15);
    let pikachu = Student::new("Pikachu", "Pokemon", 3);

    let mut x = vec![&ash, &misty, &brock, &pikachu];
    let expected = vec![&pikachu, &ash, &misty, &brock];

    assert_eq!(
        sort_by(&mut x, &|a: &&Student, b: &&Student| {
            a.age
                .cmp(&b.age)
                .then_with(|| a.first_name.cmp(&b.first_name))
        }),
        Ok(())
    );

    assert_eq!(x, expected);
}

#[test]
fn sequential_sort_of_eight_ascending() {
    let mut x: Vec<u32> = vec![10, 30, 11, 20, 4, 330, 21, 110];
    assert_eq!(sort(&mut x, &Ascending), Ok(()));
    assert_eq!(x, vec![4, 10, 11, 20, 21, 30, 110, 330]);
}

#[test]
fn sequential_sort_of_eight_descending() {
    let mut x: Vec<u32> = vec![10, 30, 11, 20, 4, 330, 21, 110];
    assert_eq!(sort(&mut x, &Descending), Ok(()));
    assert_eq!(x, vec![330, 110, 30, 21, 20, 11, 10, 4]);
}

#[test]
fn sequential_sort_refuses_three() {
    let mut x: Vec<u32> = vec![10, 30, 11];
    assert_eq!(
        sort(&mut x, &Ascending),
        Err("The length of x is not a power of two. (x.len(): 3)".to_string())
    );
    assert_eq!(x, vec![10, 30, 11]);

    let mut y: Vec<u32> = vec![5, 4, 3, 2, 1, 0];
    assert_eq!(
        sort_by(&mut y, &|a: &u32, b: &u32| a.cmp(b)),
        Err("The length of x is not a power of two. (x.len(): 6)".to_string())
    );
    assert_eq!(y, vec![5, 4, 3, 2, 1, 0]);
}

#[test]
fn sequential_sort_accepts_empty() {
    let mut x: Vec<u32> = vec![];
    assert_eq!(sort(&mut x, &Ascending), Ok(()));
    assert!(x.is_empty());
}

#[test]
fn ties_never_swap() {
    // Equal keys with different tags: a comparator that answers `Equal`
    // moves nothing.
    let mut x: Vec<(u32, char)> = vec![(1, 'a'), (1, 'b'), (1, 'c'), (1, 'd')];
    assert_eq!(
        sort_by(&mut x, &|a: &(u32, char), b: &(u32, char)| a.0.cmp(&b.0)),
        Ok(())
    );
    assert_eq!(x, vec![(1, 'a'), (1, 'b'), (1, 'c'), (1, 'd')]);
}

#[test]
fn sorted_input_with_ties_may_be_rearranged() {
    // Sorted by key already; the elements with key 5 tie and change places.
    let mut x: Vec<(u32, char)> = vec![
        (0, 'a'),
        (1, 'b'),
        (2, 'c'),
        (3, 'd'),
        (4, 'e'),
        (5, 'f'),
        (5, 'g'),
        (6, 'h'),
    ];
    assert_eq!(
        sort_by(&mut x, &|a: &(u32, char), b: &(u32, char)| a.0.cmp(&b.0)),
        Ok(())
    );
    assert_eq!(
        x,
        vec![
            (0, 'a'),
            (1, 'b'),
            (2, 'c'),
            (3, 'd'),
            (4, 'e'),
            (5, 'g'),
            (5, 'f'),
            (6, 'h'),
        ]
    );
}

#[test]
fn sorting_twice_changes_nothing() {
    let mut x: Vec<u32> = vec![9, 3, 7, 1, 8, 2, 6, 4, 5, 0, 15, 11, 13, 12, 14, 10];
    assert_eq!(sort(&mut x, &Ascending), Ok(()));
    let once = x.clone();
    assert_eq!(sort(&mut x, &Ascending), Ok(()));
    assert_eq!(x, once);
    assert_eq!(x, (0..16).collect::<Vec<u32>>());
}
