use rinha::model::be_bytes::{u64_from_be_bytes_at, u64_to_be_bytes};
use rinha::model::page::{Page, PAGE_SIZE};

fn encoded<T: serde::Serialize>(row: &T) -> Vec<u8> {
    bitcode::serialize(row).unwrap()
}

#[test]
fn test_insert_into_page() {
    let mut page = Page::<1024>::new();
    assert_eq!(4, page.available_rows());

    page.insert(&encoded(&String::from("Rinha")));
    assert_eq!(3, page.available_rows());

    page.insert(&encoded(&String::from("De")));
    assert_eq!(2, page.available_rows());

    page.insert(&encoded(&(2024 as u64)));
    assert_eq!(1, page.available_rows());

    let rows = page.rows();
    let mut rows = rows.iter();

    assert_eq!(
        "Rinha",
        bitcode::deserialize::<String>(rows.next().unwrap()).unwrap()
    );

    assert_eq!(
        "De",
        bitcode::deserialize::<String>(rows.next().unwrap()).unwrap()
    );

    assert_eq!(
        2024 as u64,
        bitcode::deserialize::<u64>(rows.next().unwrap()).unwrap()
    );

    assert!(rows.next().is_none());
}

#[test]
fn initialize() {
    let page = Page::<1024>::new();
    assert_eq!(0, page.len());
    assert_eq!(4, page.available_rows());
    assert_eq!(PAGE_SIZE, page.available_space());
    assert!(page.rows().is_empty());
}

#[test]
fn initialize_with_empty_bytes() {
    let page = Page::<1024>::from_bytes(vec![]);
    assert_eq!(0, page.len());
    assert_eq!(4, page.available_rows());
    assert_eq!(PAGE_SIZE, page.available_space());
}

#[test]
fn initialize_from_bytes() {
    let mut page = Page::<1024>::new();
    page.insert(&encoded(&String::from("Rinha")));
    page.insert(&encoded(&String::from("De")));

    let mut image = page.as_bytes().to_vec();
    image.resize(PAGE_SIZE, 0);
    let page = Page::<1024>::from_bytes(image);

    assert_eq!(2048, page.len());
    assert_eq!(2, page.available_rows());
    assert_eq!(2048, page.available_space());
}

#[test]
fn update_existing_page() {
    let mut page = Page::<1024>::new();
    page.insert(&encoded(&String::from("Rinha")));
    page.insert(&encoded(&String::from("De")));

    let mut image = page.as_bytes().to_vec();
    image.resize(PAGE_SIZE, 0);
    let mut page = Page::<1024>::from_bytes(image);
    page.insert(&encoded(&String::from("Backend")));
    page.insert(&encoded(&(2024 as u64)));
    assert_eq!(0, page.available_rows());

    let rows = page.rows();
    assert_eq!(4, rows.len());
    assert_eq!("Rinha", bitcode::deserialize::<String>(&rows[0]).unwrap());
    assert_eq!("De", bitcode::deserialize::<String>(&rows[1]).unwrap());
    assert_eq!("Backend", bitcode::deserialize::<String>(&rows[2]).unwrap());
    assert_eq!(2024, bitcode::deserialize::<u64>(&rows[3]).unwrap());
}

#[test]
fn slot_layout_is_length_payload_padding() {
    let mut page = Page::<16>::new();
    page.insert(&[0xAA, 0xBB]);
    assert_eq!(
        page.as_bytes(),
        &[0, 0, 0, 0, 0, 0, 0, 2, 0xAA, 0xBB, 0, 0, 0, 0, 0, 0]
    );
    assert_eq!(PAGE_SIZE - 16, page.available_space());
    assert_eq!(255, page.available_rows());
    assert_eq!(page.rows(), vec![vec![0xAA, 0xBB]]);
}

#[test]
fn a_full_slot_holds_row_size_minus_eight_bytes() {
    let mut page = Page::<16>::new();
    page.insert(&[1, 2, 3, 4, 5, 6, 7, 8]);
    assert_eq!(16, page.len());
    assert_eq!(page.rows(), vec![vec![1, 2, 3, 4, 5, 6, 7, 8]]);
}

#[test]
fn an_empty_row_ends_the_page_data() {
    let mut page = Page::<16>::new();
    page.insert(&[7]);
    page.insert(&[]);
    page.insert(&[9]);
    assert_eq!(48, page.len());
    assert_eq!(page.rows(), vec![vec![7]]);

    let mut image = page.as_bytes().to_vec();
    image.resize(PAGE_SIZE, 0);
    let reloaded = Page::<16>::from_bytes(image);
    assert_eq!(16, reloaded.len());
}

#[test]
fn a_long_length_reads_past_its_slot() {
    let mut bytes = vec![0u8; 48];
    bytes[7] = 3;
    bytes[8] = 1;
    bytes[9] = 2;
    bytes[10] = 3;
    bytes[16 + 7] = 12;
    bytes[24] = 7;
    bytes[39] = 1;
    bytes[40] = 9;
    let page = Page::<16>::from_bytes(bytes);
    assert_eq!(48, page.len());
    assert!(page.rows_fit());
    assert_eq!(
        page.rows(),
        vec![vec![1, 2, 3], vec![7, 0, 0, 0, 0, 0, 0, 0, 0, 0, 0, 0], vec![9]]
    );
}

#[test]
fn a_length_past_the_data_cannot_be_read() {
    let mut bytes = vec![0u8; 32];
    bytes[7] = 3;
    bytes[16 + 7] = 200;
    let page = Page::<16>::from_bytes(bytes);
    assert_eq!(32, page.len());
    assert!(!page.rows_fit());
}

#[test]
fn from_bytes_ignores_a_partial_trailing_slot() {
    let mut bytes = vec![0u8; 20];
    bytes[7] = 1;
    bytes[8] = 42;
    bytes[16] = 1;
    let page = Page::<16>::from_bytes(bytes);
    assert_eq!(16, page.len());
    assert_eq!(page.rows(), vec![vec![42]]);
}

#[test]
fn big_endian_prefix() {
    assert_eq!(
        u64_to_be_bytes(0x0102_0304_0506_0708),
        vec![1, 2, 3, 4, 5, 6, 7, 8]
    );
    assert_eq!(
        u64_from_be_bytes_at(&[9, 1, 2, 3, 4, 5, 6, 7, 8], 1),
        0x0102_0304_0506_0708
    );
    assert_eq!(u64_to_be_bytes(2024), vec![0, 0, 0, 0, 0, 0, 0x07, 0xE8]);
}
