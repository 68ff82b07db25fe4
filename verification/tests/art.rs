use rhizome_trees::art::cmp_prefix;
use rhizome_trees::art::PrefixMatch::{Equal, NoMatch, PartialMatch};

#[test]
fn test_cmp_prefix() {
    assert_eq!(cmp_prefix(&[0, 1, 2], &[0, 1, 2]), Equal);
    assert_eq!(cmp_prefix(&[0, 1], &[0, 1, 2]), PartialMatch(vec![0, 1]));
    assert_eq!(cmp_prefix(&[0, 1, 2], &[0, 1]), PartialMatch(vec![0, 1]));
    assert_eq!(cmp_prefix(&[0, 1, 2], &[0, 1, 3]), PartialMatch(vec![0, 1]));
    assert_eq!(cmp_prefix(&[0, 1, 2], &[1, 2, 3]), NoMatch);
    assert_eq!(cmp_prefix(&[0, 1, 2], &[1]), NoMatch);
}
