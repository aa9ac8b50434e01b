use tack::error::Error;
use tack::hash::ObjectId;
use tack::object::{Op, View};
use tack::oplog::{
    append_op, current_op, hostname, now_timestamp, op_head, op_log, set_op_head, username,
};
use tack::store::ObjectStore;

/// A store and the contents of its op-head file.
struct Repo {
    store: ObjectStore,
    op_head: Option<String>,
}

impl Repo {
    fn new() -> Self {
        Repo { store: ObjectStore::new(), op_head: None }
    }

    fn head(&self) -> Result<Option<ObjectId>, Error> {
        op_head(self.op_head.as_deref())
    }

    fn append(
        &mut self,
        parents: Vec<ObjectId>,
        view: ObjectId,
        description: &str,
        command: Vec<String>,
    ) -> ObjectId {
        let id = append_op(
            &mut self.store,
            parents,
            view,
            now_timestamp(Some(1_700_000_000)),
            &hostname(None, None),
            &username(None, None),
            description,
            command,
        );
        self.op_head = Some(set_op_head(id));
        id
    }
}

fn empty_view() -> View {
    View::new(ObjectId::from_bytes([0u8; 32]), vec![], vec![], vec![])
}

#[test]
fn op_head_absent_is_none() -> Result<(), Error> {
    let mut repo = Repo::new();
    assert!(repo.head()?.is_none());
    Ok(())
}

#[test]
fn set_then_get_op_head_round_trips() -> Result<(), Error> {
    let mut repo = Repo::new();
    let id = ObjectId::from_bytes([0xab; 32]);
    repo.op_head = Some(set_op_head(id));
    assert_eq!(repo.head()?, Some(id));
    Ok(())
}

#[test]
fn malformed_op_head_is_corruption() -> Result<(), Error> {
    let mut repo = Repo::new();
    repo.op_head = Some("not-a-valid-id".to_owned());
    assert!(matches!(repo.head(), Err(Error::Corruption(_))));
    Ok(())
}

#[test]
fn append_op_advances_head_and_links_parent() -> Result<(), Error> {
    let mut repo = Repo::new();
    let view_id = repo.store.put_view(&empty_view());

    let root = repo.append(vec![], view_id, "init", vec!["tack".into(), "init".into()]);
    assert_eq!(repo.head()?, Some(root));

    let second = repo.append(vec![root], view_id, "snapshot working copy", vec![]);
    assert_eq!(repo.head()?, Some(second));
    assert_ne!(root, second);

    // current_op resolves the head.
    let head_op = current_op(&repo.store, repo.op_head.as_deref())?;
    assert_eq!(head_op.id(), second);
    assert_eq!(head_op.parents(), &[root]);
    assert_eq!(head_op.description(), "snapshot working copy");
    Ok(())
}

#[test]
fn op_log_walks_newest_first() -> Result<(), Error> {
    let mut repo = Repo::new();
    let view_id = repo.store.put_view(&empty_view());
    let a = repo.append(vec![], view_id, "a", vec![]);
    let b = repo.append(vec![a], view_id, "b", vec![]);
    let c = repo.append(vec![b], view_id, "c", vec![]);

    let log = op_log(&repo.store, repo.op_head.as_deref())?;
    let ids: Vec<ObjectId> = log.iter().map(Op::id).collect();
    assert_eq!(ids, vec![c, b, a], "op log must be newest-first");
    Ok(())
}

#[test]
fn op_log_empty_without_head() -> Result<(), Error> {
    let mut repo = Repo::new();
    assert!(op_log(&repo.store, repo.op_head.as_deref())?.is_empty());
    Ok(())
}

#[test]
fn current_op_without_head_is_corruption() {
    let mut repo = Repo::new();
    assert!(matches!(current_op(&repo.store, repo.op_head.as_deref()), Err(Error::Corruption(_))));
}

#[test]
fn metadata_records_host_and_user() -> Result<(), Error> {
    let mut repo = Repo::new();
    let view_id = repo.store.put_view(&empty_view());
    let id = repo.append(vec![], view_id, "init", vec![]);
    let op = repo.store.get_op(&id)?;
    // host/user are best-effort but always non-empty (a fallback is used).
    assert!(!op.metadata().hostname().is_empty());
    assert!(!op.metadata().username().is_empty());
    Ok(())
}

#[test]
fn appending_puts_the_new_op_before_the_log() -> Result<(), Error> {
    let mut repo = Repo::new();
    let view = repo.store.put_view(&empty_view());
    let first = repo.append(vec![], view, "first", vec![]);
    let second = repo.append(vec![first], view, "second", vec![]);
    let before: Vec<ObjectId> =
        op_log(&repo.store, repo.op_head.as_deref())?.iter().map(Op::id).collect();
    let third = repo.append(vec![second], view, "third", vec![]);
    let after: Vec<ObjectId> =
        op_log(&repo.store, repo.op_head.as_deref())?.iter().map(Op::id).collect();
    assert_eq!(before, vec![second, first]);
    assert_eq!(after, vec![third, second, first]);
    Ok(())
}

#[test]
fn an_op_appears_before_its_parents() -> Result<(), Error> {
    let mut repo = Repo::new();
    let view = repo.store.put_view(&empty_view());
    let b = repo.append(vec![], view, "b", vec![]);
    let a = repo.append(vec![b], view, "a", vec![]);
    repo.append(vec![b, a], view, "m", vec![]);
    let log = op_log(&repo.store, repo.op_head.as_deref())?;
    let descriptions: Vec<&str> = log.iter().map(|op| op.description()).collect();
    assert_eq!(descriptions, vec!["m", "a", "b"]);
    Ok(())
}
