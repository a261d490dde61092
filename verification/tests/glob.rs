use oracle::glob::{action_matches, wildcard_match};

#[test]
fn star_and_question_mark_match_as_wildcards() {
    assert!(wildcard_match("s3:*", "s3:GetObject"));
    assert!(!wildcard_match("s3:*", "ec2:RunInstances"));
    assert!(wildcard_match("arn:aws:s3:::b?cket", "arn:aws:s3:::bucket"));
    assert!(!wildcard_match("b?", "b"));
    assert!(action_matches("*", "iam:PassRole"));
    assert!(action_matches("iam:PassRole", "iam:*"));
}

#[test]
fn globs_at_their_edges() {
    assert!(wildcard_match("", ""));
    assert!(!wildcard_match("", "a"));
    assert!(wildcard_match("*", ""));
    assert!(!wildcard_match("?", ""));
    assert!(wildcard_match("a*b*c", "a--b--b--c"));
    assert!(!wildcard_match("a*b*c", "a--b--b"));
    assert!(wildcard_match("**", "x"));
    assert!(wildcard_match("é?", "éé"));
    assert!(!wildcard_match("S3:*", "s3:GetObject"));
}

#[test]
fn actions_meet_either_way() {
    for (a, b) in [("s3:*", "s3:Get*"), ("*", "s3:GetObject"), ("s3:GetObject", "s3:GetObject")] {
        assert!(action_matches(a, b));
        assert!(action_matches(b, a));
    }
    assert!(!action_matches("s3:GetObject", "s3:PutObject"));
    assert!(!action_matches("s3:GetObject", "ec2:*"));
}
