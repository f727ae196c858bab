use chainmail::lexer::TokenKind;
use chainmail::parser::kinds::KindSet;
use chainmail::parser::parsers::Missed;

#[test]
fn empty_set_has_no_member() {
    let set = KindSet::empty();
    assert!(!set.contains(None));
    assert!(!set.contains(Some(TokenKind::Comment)));
    assert!(!set.contains(Some(TokenKind::Error)));
}

#[test]
fn set_of_one_kind() {
    let set = KindSet::only(Some(TokenKind::Comma));
    assert!(set.contains(Some(TokenKind::Comma)));
    assert!(!set.contains(Some(TokenKind::Semicol)));
    assert!(!set.contains(None));
    let end = KindSet::only(None);
    assert!(end.contains(None));
    assert!(!end.contains(Some(TokenKind::Comment)));
}

#[test]
fn union_has_the_members_of_both() {
    let set = KindSet::only(Some(TokenKind::Add)).union(KindSet::only(Some(TokenKind::Error)));
    assert!(set.contains(Some(TokenKind::Add)));
    assert!(set.contains(Some(TokenKind::Error)));
    assert!(!set.contains(Some(TokenKind::Sub)));
    assert_eq!(set.union(KindSet::empty()), set);
    assert_eq!(set.union(set), set);
}

#[test]
fn join_keeps_the_further_miss() {
    let near = Missed::token(2, TokenKind::Add);
    let far = Missed::token(5, TokenKind::RParen);
    assert_eq!(near.join(far), far);
    assert_eq!(far.join(near), far);
    assert_eq!(Missed::nothing().join(near), near);
}

#[test]
fn join_at_one_place_names_both_kinds() {
    let both = Missed::token(3, TokenKind::Add).join(Missed::end(3));
    assert_eq!(both.at, 3);
    assert!(both.expected.contains(Some(TokenKind::Add)));
    assert!(both.expected.contains(None));
    assert!(!both.expected.contains(Some(TokenKind::Sub)));
}

#[test]
fn members_are_listed_once_and_in_order() {
    assert_eq!(KindSet::empty().to_vec(), vec![]);
    let set = KindSet::only(Some(TokenKind::Error))
        .union(KindSet::only(None))
        .union(KindSet::only(Some(TokenKind::Comment)))
        .union(KindSet::only(Some(TokenKind::Add)))
        .union(KindSet::only(Some(TokenKind::Add)));
    assert_eq!(
        set.to_vec(),
        vec![None, Some(TokenKind::Comment), Some(TokenKind::Add), Some(TokenKind::Error)]
    );
}

#[test]
fn every_kind_can_be_a_member() {
    let all = [
        TokenKind::Comment,
        TokenKind::String,
        TokenKind::Integer,
        TokenKind::Float,
        TokenKind::Ident,
        TokenKind::Symbol,
        TokenKind::Comma,
        TokenKind::Semicol,
        TokenKind::Colon,
        TokenKind::Assign,
        TokenKind::KwLet,
        TokenKind::KwEnd,
        TokenKind::KwDo,
        TokenKind::KwClass,
        TokenKind::KwResp,
        TokenKind::Field,
        TokenKind::Send,
        TokenKind::Pipe,
        TokenKind::Lambda,
        TokenKind::ThinArrow,
        TokenKind::Add,
        TokenKind::Sub,
        TokenKind::Mul,
        TokenKind::Div,
        TokenKind::Eq,
        TokenKind::Neq,
        TokenKind::Lt,
        TokenKind::Gt,
        TokenKind::Ge,
        TokenKind::Le,
        TokenKind::RBracket,
        TokenKind::LBracket,
        TokenKind::RParen,
        TokenKind::LParen,
        TokenKind::Whitespace,
        TokenKind::Newline,
        TokenKind::Error,
    ];
    let mut set = KindSet::empty();
    let mut expected = vec![None];
    set = set.union(KindSet::only(None));
    for kind in all {
        assert!(!set.contains(Some(kind)));
        assert_eq!(KindSet::only(Some(kind)).to_vec(), vec![Some(kind)]);
        set = set.union(KindSet::only(Some(kind)));
        assert!(set.contains(Some(kind)));
        expected.push(Some(kind));
    }
    assert_eq!(set.to_vec(), expected);
}
