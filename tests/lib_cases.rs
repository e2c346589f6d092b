use relog::eval::relog;
use relog::parse::parse_relog_term;
use relog::prog::parse_relog_prog;

#[test]
fn lib_parse_term() {
    assert_eq!(parse_relog_term("a").to_string(), "a");
    assert_eq!(parse_relog_term("ab").to_string(), "ab");
    assert_eq!(parse_relog_term("A").to_string(), "A");
    assert_eq!(parse_relog_term("Ab").to_string(), "Ab");
    assert_eq!(parse_relog_term("A<b>").to_string(), "A<b>");
    assert_eq!(parse_relog_term("A<b,C>").to_string(), "A<b,C>");
    assert_eq!(parse_relog_term("A<b,,>").to_string(), "A<b,!,!>");
    assert_eq!(parse_relog_term("A<Int,C<Bool>>").to_string(), "A<Int,C<Bool>>");
}

#[test]
fn lib_parse_prog() {
    assert_eq!(parse_relog_prog("a").to_string(), "a");
    assert_eq!(parse_relog_prog("ab").to_string(), "ab");
    assert_eq!(parse_relog_prog("A").to_string(), "A");
    assert_eq!(parse_relog_prog("Ab").to_string(), "Ab");
    assert_eq!(parse_relog_prog("A<b>").to_string(), "A<b>");
    assert_eq!(parse_relog_prog("A<b,C>").to_string(), "A<b,C>");
    assert_eq!(parse_relog_prog("A<b,,>").to_string(), "A<b,!,!>");

    assert_eq!(parse_relog_prog("x=y;a").to_string(), "x=y;a");
    assert_eq!(parse_relog_prog("x=y;ab").to_string(), "x=y;ab");
    assert_eq!(parse_relog_prog("x=y;A").to_string(), "x=y;A");
    assert_eq!(parse_relog_prog("x=y;Ab").to_string(), "x=y;Ab");
    assert_eq!(parse_relog_prog("x=y;A<b>").to_string(), "x=y;A<b>");
    assert_eq!(parse_relog_prog("x=y;A<b,C>").to_string(), "x=y;A<b,C>");
    assert_eq!(parse_relog_prog("x=y;A<b,,>").to_string(), "x=y;A<b,!,!>");
    assert_eq!(parse_relog_prog("A<b,c>=R<d>;A<B>").to_string(), "A<b,c>=R<d>;A<B>");
    assert_eq!(parse_relog_prog("A<b,c>:=R<d>;A<B>").to_string(), "A<b,c>:=R<d>;A<B>");
    assert_eq!(parse_relog_prog("").to_string(), "!");
    assert_eq!(parse_relog_prog(";").to_string(), "!");
    assert_eq!(parse_relog_prog("x;").to_string(), "!");
    assert_eq!(
        parse_relog_prog("F<x>:=Bind<G<y>,y>;_=F<1>;z=G<2>;z").to_string(),
        "F<x>:=Bind<G<y>,y>;_=F<1>;z=G<2>;z"
    );
    assert_eq!(
        parse_relog_prog("F<x>:=Bind<G<y>,y>; _=F<1>;\nz=G<2>;z").to_string(),
        "F<x>:=Bind<G<y>,y>;_=F<1>;z=G<2>;z"
    );
}

#[test]
fn lib_substitution() {
    assert_eq!(relog(false, "a=Int;T<a>"), "T<Int>");
}

#[test]
fn lib_unification() {
    assert_eq!(relog(false, "A<b,C<d>>=A<Int,C<Bool>>;R<b>"), "R<Int>");
}

#[test]
fn recursion() {
    assert_eq!(relog(false, "a=B;c=C<a>;c"), "C<B>");
    assert_eq!(relog(false, "a=B;c=C<a,a>;c"), "C<B,B>");
    relog(false, "a=A<a,a>;a");
}

#[test]
fn function() {
    assert_eq!(relog(false, "A<b,c>:=R<c>;A<B,C>"), "R<C>");
    relog(false, "A<b>:=A<b>;A<B>");
    relog(false, "A<b>:=B<a>;B<a>:=A<b>;A<B>");
}

#[test]
fn staged_bindings() {
    assert_eq!(relog(false, "F<x>:=Bind<G<y>,y>;x=F<1>;x"), "Bind<G<y>,y>");
    assert_eq!(relog(false, "F<x>:=Bind<G<y>,y>;_=F<1>;z=G<2>;z"), "2");
}
