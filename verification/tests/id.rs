use graphstats::id::{Error, Id, NonRootId};
use std::convert::TryFrom;

#[test]
fn id_valid_id() {
    let id = NonRootId::try_from(2).unwrap();
    let id: usize = id.into();
    assert_eq!(id, 2);
}

#[test]
fn id_invalid_id() {
    assert_eq!(NonRootId::try_from(0), Err(Error::Invalid));
    assert_eq!(NonRootId::try_from(1), Err(Error::Reserved));
}

#[test]
fn id_transaction_id_from_nrid() {
    assert_eq!(
        Id::try_from(2),
        Ok(Id::Transaction(NonRootId::try_from(2).unwrap()))
    );
}

#[test]
fn id_root_id() {
    assert_eq!(Id::try_from(1), Ok(Id::Root));
}

#[test]
fn id_zero_is_no_identifier() {
    assert_eq!(Id::try_from(0), Err(Error::Invalid));
}

#[test]
fn id_converts_back_to_its_integer() {
    for value in [1usize, 2, 3, 1000, usize::MAX] {
        let id = Id::try_from(value).unwrap();
        assert_eq!(id.value(), value);
        let back: usize = id.into();
        assert_eq!(back, value);
    }
    assert_eq!(NonRootId::try_from(usize::MAX).unwrap().value(), usize::MAX);
}

#[test]
fn id_from_transaction_identifier() {
    let id = NonRootId::try_from(7).unwrap();
    assert_eq!(Id::from(id), Id::Transaction(id));
    assert_ne!(Id::from(id), Id::Root);
}

#[test]
fn valid_id() {
    let id = NonRootId::try_from(2).unwrap();
    let id: usize = id.into();
    assert_eq!(id, 2);
}

#[test]
fn transaction_id_from_nrid() {
    let nr_id = NonRootId::try_from(2).unwrap();
    let id = Id::try_from(nr_id);
    assert_eq!(id, Ok(Id::Transaction(nr_id)));
}

#[test]
fn root_id() {
    let id = Id::try_from(1);
    assert_eq!(id, Ok(Id::Root));
}
