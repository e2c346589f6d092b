use relog::eval::relog;
use relog::parse::parse_relog_term;
use relog::prog::parse_relog_prog;

#[test]
fn empty_program_is_reject() {
    assert_eq!(relog(false, ""), "!");
    assert_eq!(relog(false, ";"), "!");
    assert_eq!(relog(true, ""), "!");
}

#[test]
fn self_referential_binding_terminates() {
    assert_eq!(relog(false, "a=A<a,a>;a"), "A<a,a>");
}

#[test]
fn reserved_first_character_is_reject() {
    for t in ["<a>", ">", ",x", ":y", ";", "=A"] {
        assert_eq!(parse_relog_term(t).to_string(), "!");
    }
    assert_eq!(parse_relog_term("").to_string(), "!");
}

#[test]
fn compound_without_open_bracket_is_reject() {
    assert_eq!(parse_relog_term("Ab>").to_string(), "!");
}

#[test]
fn empty_argument_list_parses_to_reject_argument() {
    assert_eq!(parse_relog_term("A<>").to_string(), "A<!>");
}

#[test]
fn nested_commas_stay_inside_arguments() {
    assert_eq!(parse_relog_term("F<G<a,b>,H<c,D<e,f>>>").to_string(), "F<G<a,b>,H<c,D<e,f>>>");
}

#[test]
fn underscore_and_digits() {
    assert_eq!(parse_relog_term("_x").to_string(), "_x");
    assert_eq!(parse_relog_term("123").to_string(), "123");
}

#[test]
fn round_trip_of_plain_names() {
    for t in ["a", "abc", "_", "Int", "X1", "9z"] {
        assert_eq!(parse_relog_term(t).to_string(), t);
    }
}

#[test]
fn comments_and_bare_clauses_are_dropped() {
    assert_eq!(parse_relog_prog("#a=B;x;a").to_string(), "a");
    assert_eq!(relog(false, "#a=B;a"), "a");
}

#[test]
fn first_define_splits_a_rule() {
    assert_eq!(parse_relog_prog("A<x>:=B:=C;R").to_string(), "A<x>:=B:=C;R");
    assert_eq!(parse_relog_prog("a=b=c;R").to_string(), "a=b=c;R");
}

#[test]
fn all_white_space_is_removed() {
    assert_eq!(parse_relog_prog(" a \t= B ;\r\n T < a >").to_string(), "a=B;T<a>");
    assert_eq!(relog(false, "a\u{a0}=\u{3000}B;\ta"), "B");
}

#[test]
fn failing_statement_rejects_program() {
    assert_eq!(relog(false, "A=B;A"), "!");
    assert_eq!(relog(false, "F<a>=G<a>;a"), "!");
    assert_eq!(relog(false, "F<a,b>=F<c>;a"), "!");
}

#[test]
fn head_or_arity_mismatch_fails() {
    assert_eq!(relog(false, "F<A>=G<A>;Ok"), "!");
    assert_eq!(relog(false, "F<A,B>=F<A>;Ok"), "!");
    assert_eq!(relog(false, "F<A,B>=F<A,B>;Ok"), "Ok");
}

#[test]
fn unify_is_symmetric_on_plain_terms() {
    assert_eq!(relog(false, "A<x>=A<B>;x"), "B");
    assert_eq!(relog(false, "A<B>=A<x>;x"), "B");
    assert_eq!(relog(false, "A<B>=A<C>;x"), "!");
    assert_eq!(relog(false, "A<C>=A<B>;x"), "!");
}

#[test]
fn unify_with_itself_keeps_term() {
    assert_eq!(relog(false, "x=F<A,G<B>>;F<A,G<B>>=x;x"), "F<A,G<B>>");
    assert_eq!(relog(false, "F<A,G<B>>=F<A,G<B>>;Done"), "Done");
}

#[test]
fn both_variables_bind_left_to_right() {
    assert_eq!(relog(false, "x=y;y=C;x"), "C");
}

#[test]
fn earlier_scope_binding_wins() {
    assert_eq!(relog(false, "x=A;x=B;x"), "B");
}

#[test]
fn rule_rewrites_return_value() {
    assert_eq!(relog(false, "Not<True>:=False;Not<True>"), "False");
    assert_eq!(relog(false, "Not<True>:=False;Not<False>"), "Not<False>");
}

#[test]
fn mutually_recursive_rules_terminate() {
    assert_eq!(relog(false, "A<b>:=B<a>;B<a>:=A<b>;A<B>"), "A<B>");
    assert_eq!(relog(false, "A<b>:=A<b>;A<B>"), "A<B>");
}

#[test]
fn recursive_mode_stops_at_depth_bound() {
    assert_eq!(relog(true, "A<b>:=A<b>;A<B>"), "!");
}

#[test]
fn self_matching_rule_in_recursive_mode_hits_depth_bound() {
    let prog = "Add<Z,n>:=n;Add<S<m>,n>:=S<Add<m,n>>;Add<S<S<Z>>,S<Z>>";
    assert_eq!(relog(true, prog), "!");
    assert_eq!(relog(false, prog), "S<Add<S<Z>,S<Z>>>");
}

#[test]
fn recursive_mode_without_rules_matches_plain_mode() {
    assert_eq!(relog(true, "a=Int;T<a>"), "T<Int>");
    assert_eq!(relog(true, "a=B;c=C<a,a>;c"), "C<B,B>");
}
