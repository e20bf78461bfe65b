use graphstats::id::{self, Id, NonRootId};
use graphstats::transaction::{Error, Transaction};
use std::convert::TryFrom;

#[test]
fn transaction_parse_success() {
    let input = String::from("5 6 120");
    let res = Transaction::try_from((2, &input));
    let id = NonRootId::try_from(2).unwrap();
    let left = Id::try_from(5).unwrap();
    let right = Id::try_from(6).unwrap();
    assert_eq!(res, Ok(Transaction::new(id, left, right, 120)))
}

#[test]
fn transaction_parse_success_root() {
    let input = String::from("1 1 120");
    let res = Transaction::try_from((2, &input));
    let id = NonRootId::try_from(2).unwrap();
    assert_eq!(res, Ok(Transaction::new(id, Id::Root, Id::Root, 120)))
}

#[test]
fn transaction_parse_missing_left() {
    let input = String::from("");
    let res = Transaction::try_from((2, &input));
    assert_eq!(res, Err(Error::MissingLeft));
}

#[test]
fn transaction_parse_missing_right() {
    let input = String::from("5");
    let res = Transaction::try_from((2, &input));
    assert_eq!(res, Err(Error::MissingRight));
}

#[test]
fn transaction_parse_missing_timestamp() {
    let input = String::from("5 6");
    let res = Transaction::try_from((2, &input));
    assert_eq!(res, Err(Error::MissingTimestamp));
}

#[test]
fn transaction_parse_invalid_left() {
    let input = String::from("abc");
    let res = Transaction::try_from((2, &input));
    let err = usize::from_str_radix("abc", 10).err().unwrap();
    assert_eq!(res, Err(Error::InvalidLeft(err)));
}

#[test]
fn transaction_parse_invalid_right() {
    let input = String::from("5 abc");
    let res = Transaction::try_from((2, &input));
    let err = usize::from_str_radix("abc", 10).err().unwrap();
    assert_eq!(res, Err(Error::InvalidRight(err)));
}

#[test]
fn transaction_parse_invalid_timestamp() {
    let input = String::from("5 6 abc");
    let res = Transaction::try_from((2, &input));
    let err = usize::from_str_radix("abc", 10).err().unwrap();
    assert_eq!(res, Err(Error::InvalidTimestamp(err)));
}

#[test]
fn transaction_parse_invalid_left_id() {
    let input = String::from("0 5 120");
    let res = Transaction::try_from((2, &input));
    assert_eq!(res, Err(Error::InvalidLeftId(id::Error::Invalid)));
}

#[test]
fn transaction_parse_invalid_right_id() {
    let input = String::from("5 0 120");
    let res = Transaction::try_from((2, &input));
    assert_eq!(res, Err(Error::InvalidRightId(id::Error::Invalid)));
}

#[test]
fn transaction_parse_invalid_own_id() {
    let input = String::from("1 1 0");
    assert_eq!(
        Transaction::try_from((0, &input)),
        Err(Error::InvalidId(id::Error::Invalid))
    );
    assert_eq!(
        Transaction::try_from((1, &input)),
        Err(Error::InvalidId(id::Error::Reserved))
    );
}

#[test]
fn transaction_getters_give_the_parts() {
    let id = NonRootId::try_from(9).unwrap();
    let left = Id::try_from(4).unwrap();
    let t = Transaction::new(id, left, Id::Root, 77);
    assert_eq!(t.id(), id);
    assert_eq!(t.left(), left);
    assert_eq!(t.right(), Id::Root);
    assert_eq!(t.timestamp(), 77);
}

#[test]
fn transaction_parse_separators_and_signs() {
    let input = String::from(" \t+3\r\x0C 007\n +12  ");
    let res = Transaction::try_from((5, &input)).unwrap();
    assert_eq!(res.id().value(), 5);
    assert_eq!(res.left().value(), 3);
    assert_eq!(res.right().value(), 7);
    assert_eq!(res.timestamp(), 12);
}

#[test]
fn transaction_parse_ignores_a_fourth_word() {
    let input = String::from("1 2 3 nonsense");
    let res = Transaction::try_from((4, &input)).unwrap();
    let id = NonRootId::try_from(4).unwrap();
    let right = Id::try_from(2).unwrap();
    assert_eq!(res, Transaction::new(id, Id::Root, right, 3));
}

#[test]
fn transaction_parse_faults_come_in_the_order_of_the_words() {
    let input = String::from("abc");
    let err = usize::from_str_radix("abc", 10).err().unwrap();
    assert_eq!(
        Transaction::try_from((2, &input)),
        Err(Error::InvalidLeft(err))
    );
    let input = String::from("0");
    assert_eq!(
        Transaction::try_from((2, &input)),
        Err(Error::InvalidLeftId(id::Error::Invalid))
    );
    let input = String::from("-1 1 1");
    let err = usize::from_str_radix("-1", 10).err().unwrap();
    assert_eq!(
        Transaction::try_from((2, &input)),
        Err(Error::InvalidLeft(err))
    );
    let input = String::from("1 1 99999999999999999999999999");
    let err = usize::from_str_radix("99999999999999999999999999", 10)
        .err()
        .unwrap();
    assert_eq!(
        Transaction::try_from((2, &input)),
        Err(Error::InvalidTimestamp(err))
    );
    let input = String::from("1 + 1");
    let err = usize::from_str_radix("+", 10).err().unwrap();
    assert_eq!(
        Transaction::try_from((2, &input)),
        Err(Error::InvalidRight(err))
    );
}

#[test]
fn transaction_parse_words_that_are_not_ascii() {
    let input = String::from("1 \u{0663} 5");
    let err = usize::from_str_radix("\u{0663}", 10).err().unwrap();
    assert_eq!(
        Transaction::try_from((2, &input)),
        Err(Error::InvalidRight(err))
    );
    let input = String::from("é1\u{00a0}2 3 4");
    let err = usize::from_str_radix("é1\u{00a0}2", 10).err().unwrap();
    assert_eq!(
        Transaction::try_from((2, &input)),
        Err(Error::InvalidLeft(err))
    );
}

fn second(input: &str) -> Result<Transaction, Error> {
    Transaction::try_from((2, &String::from(input)))
}

#[test]
fn parse_success() {
    let input = "5 6 120";
    let res = second(input);
    let left = Id::try_from(5).unwrap();
    let right = Id::try_from(6).unwrap();
    let transaction = res.unwrap();
    assert_eq!(transaction.left(), left);
    assert_eq!(transaction.right(), right);
    assert_eq!(transaction.timestamp(), 120);
}

#[test]
fn parse_success_root() {
    let input = "1 1 120";
    let transaction = second(input).unwrap();
    assert_eq!(transaction.left(), Id::Root);
    assert_eq!(transaction.right(), Id::Root);
    assert_eq!(transaction.timestamp(), 120);
}

#[test]
fn parse_missing_left() {
    assert_eq!(second(""), Err(Error::MissingLeft));
}

#[test]
fn parse_missing_right() {
    assert_eq!(second("5"), Err(Error::MissingRight));
}

#[test]
fn parse_missing_timestamp() {
    assert_eq!(second("5 6"), Err(Error::MissingTimestamp));
}

#[test]
fn parse_invalid_left() {
    let err = usize::from_str_radix("abc", 10).err().unwrap();
    assert_eq!(second("abc"), Err(Error::InvalidLeft(err)));
}

#[test]
fn parse_invalid_right() {
    let err = usize::from_str_radix("abc", 10).err().unwrap();
    assert_eq!(second("5 abc"), Err(Error::InvalidRight(err)));
}

#[test]
fn parse_invalid_timestamp() {
    let err = usize::from_str_radix("abc", 10).err().unwrap();
    assert_eq!(second("5 6 abc"), Err(Error::InvalidTimestamp(err)));
}

#[test]
fn parse_invalid_left_id() {
    assert_eq!(
        second("0 5 120"),
        Err(Error::InvalidLeftId(id::Error::Invalid))
    );
}

#[test]
fn parse_invalid_right_id() {
    assert_eq!(
        second("5 0 120"),
        Err(Error::InvalidRightId(id::Error::Invalid))
    );
}
