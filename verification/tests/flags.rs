use git2::Status;
use git2ex::status::{
    STATUS_CONFLICTED, STATUS_IGNORED, STATUS_INDEX_DELETED, STATUS_INDEX_MODIFIED, STATUS_INDEX_NEW,
    STATUS_INDEX_RENAMED, STATUS_INDEX_TYPECHANGE, STATUS_WT_DELETED, STATUS_WT_MODIFIED, STATUS_WT_NEW,
    STATUS_WT_RENAMED, STATUS_WT_TYPECHANGE,
};

#[test]
fn status_bits_are_git2_bits() {
    assert_eq!(STATUS_INDEX_NEW, Status::INDEX_NEW.bits());
    assert_eq!(STATUS_INDEX_MODIFIED, Status::INDEX_MODIFIED.bits());
    assert_eq!(STATUS_INDEX_DELETED, Status::INDEX_DELETED.bits());
    assert_eq!(STATUS_INDEX_RENAMED, Status::INDEX_RENAMED.bits());
    assert_eq!(STATUS_INDEX_TYPECHANGE, Status::INDEX_TYPECHANGE.bits());
    assert_eq!(STATUS_WT_NEW, Status::WT_NEW.bits());
    assert_eq!(STATUS_WT_MODIFIED, Status::WT_MODIFIED.bits());
    assert_eq!(STATUS_WT_DELETED, Status::WT_DELETED.bits());
    assert_eq!(STATUS_WT_TYPECHANGE, Status::WT_TYPECHANGE.bits());
    assert_eq!(STATUS_WT_RENAMED, Status::WT_RENAMED.bits());
    assert_eq!(STATUS_IGNORED, Status::IGNORED.bits());
    assert_eq!(STATUS_CONFLICTED, Status::CONFLICTED.bits());
}
