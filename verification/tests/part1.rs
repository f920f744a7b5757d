use futurelab::password::judge_line;
use futurelab::password::Guess;
use futurelab::positions::remove_positions;
use futurelab::positions::reversed;
use futurelab::vectors::add_n;
use futurelab::vectors::add_n_inplace;
use futurelab::vectors::dedup;
use futurelab::words::first_word;

#[test]
fn test_add_n() {
    assert_eq!(add_n(vec![1], 2), vec![3]);
}

#[test]
fn test_add_n_inplace() {
    let mut v = vec![1];
    add_n_inplace(&mut v, 2);
    assert_eq!(v, vec![3]);
}

#[test]
fn test_dedup() {
    let mut v = vec![3, 1, 0, 1, 4, 4];
    dedup(&mut v);
    assert_eq!(v, vec![3, 1, 0, 4]);
}

#[test]
fn dedup_reports_removed_positions_largest_first() {
    let mut v = vec![3, 1, 0, 1, 4, 4];
    let removed = dedup(&mut v);
    assert_eq!(removed, vec![5, 3]);
}

#[test]
fn dedup_never_compares_the_first_element() {
    let mut v = vec![3, 3, 3];
    let removed = dedup(&mut v);
    assert_eq!(v, vec![3, 3]);
    assert_eq!(removed, vec![2]);
}

#[test]
fn dedup_of_empty_and_single() {
    let mut v: Vec<i32> = vec![];
    assert_eq!(dedup(&mut v), Vec::<usize>::new());
    assert_eq!(v, Vec::<i32>::new());
    let mut w = vec![7];
    dedup(&mut w);
    assert_eq!(w, vec![7]);
}

#[test]
fn dedup_twice_removes_nothing_more() {
    let mut v = vec![5, 2, 2, 9, 5, 2, 9, 1];
    dedup(&mut v);
    assert_eq!(v, vec![5, 2, 9, 5, 1]);
    let removed = dedup(&mut v);
    assert!(removed.is_empty());
    assert_eq!(v, vec![5, 2, 9, 5, 1]);
}

#[test]
fn add_n_and_add_n_inplace_agree() {
    let v = vec![-4, 0, 17, i32::MAX - 3];
    let mut w = v.clone();
    add_n_inplace(&mut w, 3);
    assert_eq!(add_n(v, 3), w);
    assert_eq!(w, vec![-1, 3, 20, i32::MAX]);
}

#[test]
fn add_n_negative() {
    assert_eq!(add_n(vec![0, 5, -5], -5), vec![-5, 0, -10]);
    assert_eq!(add_n(vec![], 9), Vec::<i32>::new());
}

#[test]
fn remove_positions_from_the_back() {
    let mut v = vec!['a', 'b', 'c', 'd', 'e'];
    remove_positions(&mut v, &vec![4, 2, 0]);
    assert_eq!(v, vec!['b', 'd']);
    let mut w = vec![1, 2];
    remove_positions(&mut w, &vec![]);
    assert_eq!(w, vec![1, 2]);
}

#[test]
fn reversed_lists_backwards() {
    assert_eq!(reversed(&vec![1, 4, 9]), vec![9, 4, 1]);
    assert_eq!(reversed(&vec![]), Vec::<usize>::new());
}

#[test]
fn first_word_stops_at_first_space() {
    let mut s = String::from("hello world again");
    assert_eq!(first_word(&mut s), "hello");
    let mut t = String::from("single");
    assert_eq!(first_word(&mut t), "single");
    let mut u = String::from(" leading");
    assert_eq!(first_word(&mut u), "");
    let mut e = String::new();
    assert_eq!(first_word(&mut e), "");
    let mut m = String::from("héllo wörld");
    assert_eq!(first_word(&mut m), "héllo");
}

#[test]
fn first_word_of_first_word_is_itself() {
    let mut s = String::from("alpha beta");
    let w = first_word(&mut s).to_string();
    let mut again = w.clone();
    assert_eq!(first_word(&mut again), w);
}

#[test]
fn judge_line_decisions() {
    let secret = String::from("Password1");
    assert_eq!(judge_line(&secret, "", 0), Guess::EndOfInput);
    assert_eq!(judge_line(&secret, "Password1\n", 3), Guess::Correct);
    assert_eq!(judge_line(&secret, "password1\n", 3), Guess::Wrong { next: 4 });
    assert_eq!(judge_line(&secret, "Password1", 0), Guess::Wrong { next: 1 });
    assert_eq!(judge_line(&secret, "Password12", 0), Guess::Correct);
}
