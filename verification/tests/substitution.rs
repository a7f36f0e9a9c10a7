//! The substitution engine and the variable mapping, exercised on
//! concrete values.
use dotdeploy::text::replace_bytes;
use dotdeploy::vars::substitute_variables;
use dotdeploy::vars::VarMap;

fn map_of(pairs: &[(&[u8], &[u8])]) -> VarMap {
    let mut m = VarMap::new();
    for (k, v) in pairs {
        m.insert(k.to_vec(), v.to_vec());
    }
    m
}

#[test]
fn substitutes_two_variables() {
    let vars = map_of(&[(b"x", b"1"), (b"y", b"2")]);
    let out = substitute_variables(b"a{{ x }} b{{ y }}c".to_vec(), &vars);
    assert_eq!(out, b"a1 b2c".to_vec());
}

#[test]
fn unmatched_token_passes_through() {
    let vars = map_of(&[(b"x", b"1")]);
    let out = substitute_variables(b"keep {{ z }} here".to_vec(), &vars);
    assert_eq!(out, b"keep {{ z }} here".to_vec());
}

#[test]
fn empty_mapping_changes_nothing() {
    let vars = VarMap::new();
    let out = substitute_variables(b"a{{ x }}b".to_vec(), &vars);
    assert_eq!(out, b"a{{ x }}b".to_vec());
}

#[test]
fn strict_delimiter_spacing_is_required() {
    let vars = map_of(&[(b"x", b"1")]);
    let out = substitute_variables(b"{{x}} {{  x  }} {{ x }}".to_vec(), &vars);
    assert_eq!(out, b"{{x}} {{  x  }} 1".to_vec());
}

#[test]
fn substitution_is_applied_in_insertion_order() {
    // x's value holds a token for y; the pass for y runs after the pass
    // for x, so the reintroduced token is rewritten too.
    let vars = map_of(&[(b"x", b"{{ y }}"), (b"y", b"2")]);
    let out = substitute_variables(b"a{{ x }}".to_vec(), &vars);
    assert_eq!(out, b"a2".to_vec());
    // In the other insertion order the pass for y has already run when
    // x's value reintroduces its token, so the token stays.
    let vars_rev = map_of(&[(b"y", b"2"), (b"x", b"{{ y }}")]);
    let out_rev = substitute_variables(b"a{{ x }}".to_vec(), &vars_rev);
    assert_eq!(out_rev, b"a{{ y }}".to_vec());
}

#[test]
fn replacement_is_leftmost_and_does_not_overlap() {
    let out = replace_bytes(&b"aaa".to_vec(), &b"aa".to_vec(), &b"b".to_vec());
    assert_eq!(out, b"ba".to_vec());
}

#[test]
fn replacement_does_not_rescan_replacement_text() {
    let out = replace_bytes(&b"ab".to_vec(), &b"ab".to_vec(), &b"abab".to_vec());
    assert_eq!(out, b"abab".to_vec());
}

#[test]
fn merge_moves_secrets_over_variables() {
    let mut vars = map_of(&[(b"k", b"v1"), (b"other", b"o")]);
    let secrets = map_of(&[(b"k", b"v2"), (b"token", b"opensesame")]);
    vars.merge(secrets);
    assert_eq!(vars.get(&b"k".to_vec()), Some(&b"v2".to_vec()));
    assert_eq!(vars.get(&b"other".to_vec()), Some(&b"o".to_vec()));
    assert_eq!(vars.get(&b"token".to_vec()), Some(&b"opensesame".to_vec()));
    assert_eq!(vars.get(&b"absent".to_vec()), None);
    assert_eq!(vars.len(), 3);
}

#[test]
fn merged_mapping_substitutes_the_secret_value() {
    let mut vars = map_of(&[(b"k", b"v1")]);
    vars.merge(map_of(&[(b"k", b"v2")]));
    let out = substitute_variables(b"-{{ k }}-".to_vec(), &vars);
    assert_eq!(out, b"-v2-".to_vec());
}

#[test]
fn pairs_are_kept_in_insertion_order_with_overwrites_in_place() {
    let mut vars = map_of(&[(b"a", b"1"), (b"b", b"2")]);
    vars.insert(b"a".to_vec(), b"3".to_vec());
    vars.insert(b"c".to_vec(), b"4".to_vec());
    assert_eq!(vars.len(), 3);
    assert_eq!(vars.key_at(0), &b"a".to_vec());
    assert_eq!(vars.value_at(0), &b"3".to_vec());
    assert_eq!(vars.key_at(1), &b"b".to_vec());
    assert_eq!(vars.key_at(2), &b"c".to_vec());
    assert_eq!(vars.value_at(2), &b"4".to_vec());
}
