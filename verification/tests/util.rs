use hydroflow::util::sort_unstable_by_key_hrtb;

#[derive(Debug, PartialEq, Eq, Clone)]
struct Person {
    name: String,
    age: u32,
}

fn person(name: &str, age: u32) -> Person {
    Person { name: name.to_string(), age }
}

#[test]
fn sort_by_a_borrowed_key() {
    let mut people = vec![person("carol", 31), person("alice", 52), person("bob", 17)];
    sort_unstable_by_key_hrtb(&mut people, |p| &p.name);
    assert_eq!(people, vec![person("alice", 52), person("bob", 17), person("carol", 31)]);
    sort_unstable_by_key_hrtb(&mut people, |p| &p.age);
    assert_eq!(people, vec![person("bob", 17), person("carol", 31), person("alice", 52)]);
}

#[test]
fn sort_keeps_every_element() {
    let mut numbers = vec![5u64, 3, 5, 1, 3, 5];
    sort_unstable_by_key_hrtb(&mut numbers, |n| n);
    assert_eq!(numbers, vec![1, 3, 3, 5, 5, 5]);
    let mut empty: Vec<u64> = vec![];
    sort_unstable_by_key_hrtb(&mut empty, |n| n);
    assert_eq!(empty, Vec::<u64>::new());
}
