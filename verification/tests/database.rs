use rinha::model::builder::Builder;
use rinha::model::database::{Db, PageWrite};
use rinha::model::page::PAGE_SIZE;

fn apply(file: &mut Vec<u8>, write: &PageWrite) {
    let offset = write.offset as usize;
    let end = offset + write.bytes.len();
    if file.len() < end {
        file.resize(end, 0);
    }
    file[offset..end].copy_from_slice(&write.bytes);
}

fn open<const ROW_SIZE: usize>(file: &[u8], sync: Option<u128>) -> Db<ROW_SIZE> {
    let last = Db::<ROW_SIZE>::last_page_offset(file.len() as u64)
        .map(|offset| file[offset as usize..offset as usize + PAGE_SIZE].to_vec());
    Db::<ROW_SIZE>::open(file.len() as u64, last, sync)
}

fn insert_all<const ROW_SIZE: usize>(db: &mut Db<ROW_SIZE>, file: &mut Vec<u8>, rows: &[i64]) {
    for row in rows {
        let write = db.insert(&bitcode::serialize(row).unwrap());
        apply(file, &write);
    }
}

fn decode(rows: Vec<Vec<u8>>) -> Vec<i64> {
    rows.iter()
        .map(|row| bitcode::deserialize::<i64>(row).unwrap())
        .collect()
}

#[test]
fn test_db_rows() {
    let mut file = Vec::new();
    let mut db = open::<2048>(&file, Some(0));
    insert_all(&mut db, &mut file, &[1, 2, 3, 4, 5]);

    let row = decode(Db::<2048>::rows(&Db::<2048>::pages(&file)));
    assert_eq!(row.len(), 5);
    assert_eq!(row, vec![1, 2, 3, 4, 5]);
}

#[test]
fn test_db_rows_reverse() {
    let mut file = Vec::new();
    let mut db = open::<2048>(&file, Some(0));
    insert_all(&mut db, &mut file, &[1, 2, 3, 4, 5]);

    let rows = decode(Db::<2048>::rows_reverse(&Db::<2048>::pages_reverse(&file)));
    assert_eq!(rows, vec![5, 4, 3, 2, 1]);
}

#[test]
fn writes_rewrite_the_last_page_until_it_fills() {
    let mut file = Vec::new();
    let mut db = open::<2048>(&file, Some(0));
    let offsets: Vec<u64> = [1i64, 2, 3, 4, 5]
        .iter()
        .map(|row| {
            let write = db.insert(&bitcode::serialize(row).unwrap());
            assert_eq!(PAGE_SIZE, write.bytes.len());
            apply(&mut file, &write);
            write.offset
        })
        .collect();
    assert_eq!(offsets, vec![0, 0, 4096, 4096, 8192]);
    assert_eq!(file.len(), 3 * PAGE_SIZE);
    assert_eq!(Db::<2048>::pages(&file).len(), 3);
}

#[test]
fn reopening_resumes_the_last_page() {
    let mut file = Vec::new();
    let mut db = open::<2048>(&file, Some(0));
    insert_all(&mut db, &mut file, &[1, 2, 3]);

    let mut db = open::<2048>(&file, Some(0));
    insert_all(&mut db, &mut file, &[4, 5, 6]);

    assert_eq!(file.len(), 3 * PAGE_SIZE);
    assert_eq!(
        decode(Db::<2048>::rows(&Db::<2048>::pages(&file))),
        vec![1, 2, 3, 4, 5, 6]
    );
}

#[test]
fn reopening_after_a_full_page_appends_a_new_page() {
    let mut file = Vec::new();
    let mut db = open::<2048>(&file, Some(0));
    insert_all(&mut db, &mut file, &[1, 2]);
    assert_eq!(file.len(), PAGE_SIZE);

    let mut db = open::<2048>(&file, Some(0));
    assert!(db.can_insert(8));
    let write = db.insert(&bitcode::serialize(&3i64).unwrap());
    assert_eq!(write.offset, PAGE_SIZE as u64);
    apply(&mut file, &write);
    insert_all(&mut db, &mut file, &[4]);

    assert_eq!(file.len(), 2 * PAGE_SIZE);
    assert_eq!(
        decode(Db::<2048>::rows(&Db::<2048>::pages(&file))),
        vec![1, 2, 3, 4]
    );
}

#[test]
fn opening_a_short_file_starts_a_page_at_its_end() {
    assert_eq!(Db::<2048>::last_page_offset(0), None);
    assert_eq!(Db::<2048>::last_page_offset(4095), None);
    assert_eq!(Db::<2048>::last_page_offset(4096), Some(0));
    assert_eq!(Db::<2048>::last_page_offset(12288), Some(8192));

    let mut file = vec![0u8; 100];
    let mut db = open::<2048>(&file, None);
    let write = db.insert(&[1]);
    assert_eq!(write.offset, 100);
    apply(&mut file, &write);
    assert_eq!(file.len(), 100 + PAGE_SIZE);
}

#[test]
fn pages_of_a_ragged_file() {
    let mut file = Vec::new();
    let mut db = open::<2048>(&file, None);
    insert_all(&mut db, &mut file, &[1, 2, 3]);
    let mut ragged = vec![0u8; 10];
    ragged.extend_from_slice(&file);
    assert_eq!(Db::<2048>::pages(&ragged).len(), 2);
    assert_eq!(
        decode(Db::<2048>::rows_reverse(&Db::<2048>::pages_reverse(&ragged))),
        vec![3, 2, 1]
    );
}

#[test]
fn flush_policy() {
    let db = open::<2048>(&[], Some(0));
    assert!(!db.should_sync(0));
    assert!(db.should_sync(1));

    let db = open::<2048>(&[], Some(5_000_000));
    assert!(!db.should_sync(5_000_000));
    assert!(db.should_sync(5_000_001));

    let db = open::<2048>(&[], None);
    assert!(!db.should_sync(u128::MAX));
    assert_eq!(db.sync_writes(), None);
}

#[test]
fn builder_policies() {
    assert_eq!(Builder::default().sync_policy(), Some(0));
    assert_eq!(Builder::default().sync_writes(false).sync_policy(), None);
    assert_eq!(Builder::default().sync_writes(true).sync_policy(), Some(0));
    assert_eq!(
        Builder::default().sync_write_interval(7_000).sync_policy(),
        Some(7_000)
    );

    let db = Builder::default()
        .sync_write_interval(9)
        .build::<2048>(0, None);
    assert_eq!(db.sync_writes(), Some(9));
}
