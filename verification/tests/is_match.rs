use regex_engine::is_match;

#[test]
fn test_is_match_same_char() {
    assert!(is_match("a".to_string(), "a".to_string()).unwrap());
}

#[test]
fn test_no_match_different_char() {
    assert!(!is_match("a".to_string(), "b".to_string()).unwrap());
}

#[test]
fn test_dot_match() {
    assert!(is_match("a".to_string(), ".".to_string()).unwrap());
}

#[test]
fn test_dot_star_match() {
    assert!(is_match("This ShOuld maTch everYthing !@#$%^&*123456789".to_string(), ".*".to_string()).unwrap());
}

#[test]
fn test_dot_plus_match() {
    assert!(is_match("This ShOuld maTch everYthing !@#$%^&*123456789".to_string(), ".+".to_string()).unwrap());
}

#[test]
fn test_is_match_star() {
    assert!(is_match("aaa".to_string(), "a*".to_string()).unwrap());
}

#[test]
fn test_is_match_star_no_exists_with_other_char() {
    assert!(is_match("b".to_string(), "a*b".to_string()).unwrap());
}

#[test]
fn test_is_match_star_exists_with_other_char() {
    assert!(is_match("aab".to_string(), "a*b".to_string()).unwrap());
}

#[test]
fn test_is_match_plus() {
    assert!(is_match("aaa".to_string(), "a+".to_string()).unwrap());
}

#[test]
fn test_is_match_question_mark() {
    assert!(is_match("a".to_string(), "a?".to_string()).unwrap());
}

#[test]
fn test_is_match_question_mark_exists_with_other_char() {
    assert!(is_match("ba".to_string(), "ba?".to_string()).unwrap());
}

#[test]
fn test_is_match_question_mark_not_exists_with_other_char() {
    assert!(is_match("b".to_string(), "ba?".to_string()).unwrap());
}

#[test]
fn test_is_match_parentheses() {
    assert!(is_match("a".to_string(), "(a)".to_string()).unwrap());
}

#[test]
fn test_is_match_parentheses_plus() {
    assert!(is_match("abab".to_string(), "(ab)+".to_string()).unwrap());
}

#[test]
fn test_is_match_parentheses_plus_with_other_char() {
    assert!(is_match("cababd".to_string(), "c(ab)+d".to_string()).unwrap());
}

#[test]
fn test_is_match_parentheses_with_plus_in_paren() {
    assert!(is_match("cababbbd".to_string(), "c(ab+)+d".to_string()).unwrap());
}
#[test]
fn test_is_not_match_parentheses_with_plus_in_paren() {
    assert!(!is_match("cabad".to_string(), "c(ab+)+d".to_string()).unwrap());
}

#[test]
fn test_is_match_parentheses_with_star_in_paren() {
    assert!(is_match("caad".to_string(), "c(ab*)+d".to_string()).unwrap());
}

#[test]
fn test_parentheses_start_with_star_in_paren() {
    assert!(is_match("aad".to_string(), "c?(ab*)+d".to_string()).unwrap());
}

#[test]
fn test_parentheses_with_pipe() {
    assert!(is_match("cabd".to_string(), "c(ab|xy)d".to_string()).unwrap());
    assert!(is_match("cxyd".to_string(), "c(ab|xy)d".to_string()).unwrap());
}
#[test]
fn test_parentheses_with_plus_with_pipe_first_option() {
    assert!(is_match("cababd".to_string(), "c(ab|xy)+d".to_string()).unwrap());
}

#[test]
fn test_parentheses_with_plus_with_pipe_second_option() {
    assert!(is_match("cxyxyd".to_string(), "c(ab|xy)+d".to_string()).unwrap());
}

#[test]
fn test_parentheses_plus_with_with_star_after() {
    assert!(is_match("cababa".to_string(), "c(ab)+d*a".to_string()).unwrap());
}

#[test]
fn test_parentheses_plus_with_pipe_and_start_inside() {
    assert!(is_match("cazaza".to_string(), "c(az|bc*y)+d*a".to_string()).unwrap());
    assert!(!is_match("cbcazda".to_string(), "c(az|bc*y)+d*a".to_string()).unwrap());
}

#[test]
fn test_is_match_error_invalid_regexes() {
    assert!(is_match("_".to_string(), "*".to_string()).is_err());
    assert!(is_match("_".to_string(), "?".to_string()).is_err());
    assert!(is_match("_".to_string(), "+".to_string()).is_err());
    assert!(is_match("_".to_string(), "|".to_string()).is_err());
    assert!(is_match("_".to_string(), "a**".to_string()).is_err());
    assert!(is_match("_".to_string(), "a*+".to_string()).is_err());
    assert!(is_match("_".to_string(), "a*?".to_string()).is_err());
    assert!(is_match("_".to_string(), "a*|".to_string()).is_err());
    assert!(is_match("_".to_string(), "a?+".to_string()).is_err());
    assert!(is_match("_".to_string(), "a?*".to_string()).is_err());
    assert!(is_match("_".to_string(), "a??".to_string()).is_err());
    assert!(is_match("_".to_string(), "a?|".to_string()).is_err());
    assert!(is_match("_".to_string(), "a++".to_string()).is_err());
    assert!(is_match("_".to_string(), "a+*".to_string()).is_err());
    assert!(is_match("_".to_string(), "a+?".to_string()).is_err());
    assert!(is_match("_".to_string(), "a+|".to_string()).is_err());
}

#[test]
fn test_is_match() {
    assert!(is_match("aaaaxd".to_string(), "a+b?xc*d".to_string()).unwrap());
    assert!(is_match("aaab".to_string(), "a*b?".to_string()).unwrap());
    assert!(is_match("aaab".to_string(), "a*b?b*".to_string()).unwrap());
    assert!(is_match("aaac".to_string(), "a+b*c".to_string()).unwrap());
    assert!(is_match("c".to_string(), "a+|cb*".to_string()).unwrap());
    assert!(is_match("aa".to_string(), "a+a|cb*".to_string()).unwrap());
    assert!(is_match("Babble Fish Test".to_string(), "Bab+le Fish .est".to_string()).unwrap());
}
