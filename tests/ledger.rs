use customer_ledger::codec::{decode_ledger, encode_ledger};
use customer_ledger::{
    CustomerData, CustomerDataError, CustomerDataList, Operation, ProcessError, Processor, Pubkey,
};

fn record(tag: &str, id: &str, lei: &str, kyc: bool) -> CustomerData {
    CustomerData {
        instruction: tag.to_string(),
        customer_id: id.to_string(),
        legal_name: format!("{} Holdings", id),
        registration_number: "RN-42".to_string(),
        incorporation_country: "DE".to_string(),
        lei_registration_status: "ISSUED".to_string(),
        lei: lei.to_string(),
        incorporation_date: "2001-02-03".to_string(),
        primary_country_operation: "FR".to_string(),
        primary_isic_code: "6419".to_string(),
        entity_type: "LLC".to_string(),
        swift_code: "DEUTDEFF".to_string(),
        kyc_status: kyc,
        is_active: true,
    }
}

fn program() -> Pubkey {
    Pubkey { bytes: [7u8; 32] }
}

fn stranger() -> Pubkey {
    let mut bytes = [7u8; 32];
    bytes[31] = 8;
    Pubkey { bytes }
}

/// The record's bytes as borsh writes the same fields in the same order.
fn borsh_record(r: &CustomerData) -> Vec<u8> {
    let head = (
        r.customer_id.clone(),
        r.legal_name.clone(),
        r.registration_number.clone(),
        r.incorporation_country.clone(),
        r.lei_registration_status.clone(),
        r.lei.clone(),
    );
    let tail = (
        r.incorporation_date.clone(),
        r.primary_country_operation.clone(),
        r.primary_isic_code.clone(),
        r.entity_type.clone(),
        r.swift_code.clone(),
        r.kyc_status,
        r.is_active,
    );
    borsh::to_vec(&(head, tail)).unwrap()
}

fn create(data: &mut Vec<u8>, r: CustomerData) {
    assert_eq!(Processor::process(&program(), &program(), Some(r), data), Ok(()));
}

#[test]
fn zeroed_buffer_reads_as_empty_ledger() {
    let data = vec![0u8; 64];
    assert_eq!(decode_ledger(&data).data.len(), 0);
}

#[test]
fn malformed_buffer_reads_as_empty_ledger() {
    // a count of one, then a text length far past the end
    let mut data = vec![1u8, 0, 0, 0, 200, 0, 0, 0];
    data.extend_from_slice(&[b'x'; 8]);
    assert_eq!(decode_ledger(&data).data.len(), 0);
}

#[test]
fn layout_matches_borsh_without_the_tag() {
    let r = record("CreateCustomer", "C1", "L1", false);
    let mut list = CustomerDataList { data: vec![] };
    Processor::create_customer(r.clone(), &mut list);
    let bytes = encode_ledger(&list, 4096).unwrap();
    let mut expected = vec![1u8, 0, 0, 0];
    expected.extend(borsh_record(&r));
    assert_eq!(bytes, expected);
    assert_eq!(&bytes[0..8], &[1u8, 0, 0, 0, 2, 0, 0, 0][..]);
    assert_eq!(&bytes[8..10], b"C1");
}

#[test]
fn encode_refuses_a_small_capacity() {
    let mut list = CustomerDataList { data: vec![] };
    Processor::create_customer(record("CreateCustomer", "C1", "L1", false), &mut list);
    let full = encode_ledger(&list, 4096).unwrap();
    assert!(encode_ledger(&list, full.len() - 1).is_none());
    assert_eq!(encode_ledger(&list, full.len()).unwrap(), full);
}

#[test]
fn round_trip_keeps_bytes() {
    let mut data = vec![0u8; 1024];
    create(&mut data, record("CreateCustomer", "C1", "L1", false));
    create(&mut data, record("CreateCustomer", "Kunde-ß", "L2", true));
    let decoded = decode_ledger(&data);
    let again = encode_ledger(&decoded, data.len()).unwrap();
    assert_eq!(&data[..again.len()], &again[..]);
    assert!(data[again.len()..].iter().all(|b| *b == 0));
}

#[test]
fn insert_appends_in_order() {
    let mut data = vec![0u8; 2048];
    create(&mut data, record("CreateCustomer", "C1", "L1", false));
    create(&mut data, record("CreateCustomer", "C2", "L2", true));
    let before = data.clone();
    create(&mut data, record("CreateCustomer", "C1", "L1", true));
    let ledger = decode_ledger(&data);
    assert_eq!(ledger.data.len(), 3);
    let ids: Vec<&str> = ledger.data.iter().map(|r| r.customer_id.as_str()).collect();
    assert_eq!(ids, vec!["C1", "C2", "C1"]);
    assert!(ledger.data[2].kyc_status);
    assert_eq!(ledger.data[2].instruction, "");
    // the earlier records' bytes stay where they were
    let old_len = encode_ledger(&decode_ledger(&before), 2048).unwrap().len();
    assert_eq!(&data[4..old_len], &before[4..old_len]);
    assert_eq!(data[0], 3);
}

#[test]
fn create_customer_pushes_the_record() {
    let mut list = CustomerDataList { data: vec![] };
    Processor::create_customer(record("CreateCustomer", "A", "B", false), &mut list);
    Processor::create_customer(record("CreateCustomer", "C", "D", true), &mut list);
    assert_eq!(list.data.len(), 2);
    assert_eq!(list.data[0].customer_id, "A");
    assert_eq!(list.data[1].lei, "D");
    assert_eq!(list.data[1].instruction, "CreateCustomer");
}

#[test]
fn update_sets_kyc_of_matching_record() {
    let mut data = vec![0u8; 2048];
    create(&mut data, record("CreateCustomer", "C0", "L0", false));
    create(&mut data, record("CreateCustomer", "C1", "L1", false));
    let before = decode_ledger(&data);
    let r = Processor::process(
        &program(),
        &program(),
        Some(record("UpdateKycStatus", "C1", "L1", true)),
        &mut data,
    );
    assert_eq!(r, Ok(()));
    let after = decode_ledger(&data);
    assert_eq!(after.data.len(), 2);
    assert!(!after.data[0].kyc_status);
    assert!(after.data[1].kyc_status);
    assert_eq!(after.data[1].legal_name, before.data[1].legal_name);
    assert_eq!(after.data[1].swift_code, before.data[1].swift_code);
    assert_eq!(after.data[1].is_active, before.data[1].is_active);
}

#[test]
fn update_changes_only_the_first_match() {
    let mut list = CustomerDataList { data: vec![] };
    Processor::create_customer(record("CreateCustomer", "C1", "L1", false), &mut list);
    Processor::create_customer(record("CreateCustomer", "C1", "L1", false), &mut list);
    let r = Processor::update_customer(record("UpdateKycStatus", "C1", "L1", true), &mut list);
    assert_eq!(r, Ok(()));
    assert!(list.data[0].kyc_status);
    assert!(!list.data[1].kyc_status);
}

#[test]
fn update_without_key_keeps_buffer() {
    let mut data = vec![0u8; 1024];
    create(&mut data, record("CreateCustomer", "C1", "L1", false));
    let before = data.clone();
    for (id, lei) in [("", "L1"), ("C1", ""), ("", "")] {
        let r = Processor::process(
            &program(),
            &program(),
            Some(record("UpdateKycStatus", id, lei, true)),
            &mut data,
        );
        assert_eq!(r, Err(ProcessError::Custom(CustomerDataError::MissingCustomerId)));
        assert_eq!(data, before);
    }
}

#[test]
fn update_without_match_reports_error() {
    let mut data = vec![0u8; 1024];
    create(&mut data, record("CreateCustomer", "C1", "L1", false));
    let before = data.clone();
    let r = Processor::process(
        &program(),
        &program(),
        Some(record("UpdateKycStatus", "C1", "L2", true)),
        &mut data,
    );
    assert_eq!(r, Err(ProcessError::Custom(CustomerDataError::InvalidCustomerId)));
    assert_eq!(data, before);
    let mut list = CustomerDataList { data: vec![] };
    let r = Processor::update_customer(record("UpdateKycStatus", "C9", "L9", true), &mut list);
    assert_eq!(r, Err(CustomerDataError::InvalidCustomerId));
}

#[test]
fn unauthorized_caller_is_refused() {
    let mut data = vec![0u8; 1024];
    create(&mut data, record("CreateCustomer", "C1", "L1", false));
    let before = data.clone();
    let r = Processor::process(
        &program(),
        &stranger(),
        Some(record("CreateCustomer", "C2", "L2", false)),
        &mut data,
    );
    assert_eq!(r, Err(ProcessError::Custom(CustomerDataError::InvalidInstruction)));
    assert_eq!(data, before);
    let r = Processor::process(&program(), &stranger(), None, &mut data);
    assert_eq!(r, Err(ProcessError::Custom(CustomerDataError::InvalidInstruction)));
}

#[test]
fn read_and_unknown_tags_keep_buffer() {
    let mut data = vec![0u8; 1024];
    create(&mut data, record("CreateCustomer", "C1", "L1", false));
    let before = data.clone();
    for tag in ["GetCustomer", "createcustomer", "Delete", ""] {
        let r = Processor::process(
            &program(),
            &program(),
            Some(record(tag, "C1", "L1", true)),
            &mut data,
        );
        assert_eq!(r, Ok(()));
        assert_eq!(data, before);
    }
}

#[test]
fn undecodable_request_is_refused() {
    let mut data = vec![0u8; 64];
    let r = Processor::process(&program(), &program(), None, &mut data);
    assert_eq!(r, Err(ProcessError::InvalidInstructionData));
    assert_eq!(data, vec![0u8; 64]);
}

#[test]
fn ledger_too_large_for_buffer_is_refused() {
    let mut data = vec![0u8; 40];
    let r = Processor::process(
        &program(),
        &program(),
        Some(record("CreateCustomer", "C1", "L1", false)),
        &mut data,
    );
    assert_eq!(r, Err(ProcessError::AccountDataTooSmall));
    assert_eq!(data, vec![0u8; 40]);
}

#[test]
fn payload_text_checks_utf8() {
    assert_eq!(
        Processor::payload_text("{\"a\":\"é\"}".as_bytes()),
        Ok("{\"a\":\"é\"}".to_string())
    );
    assert_eq!(Processor::payload_text(&[0x66, 0xff, 0x66]), Err(ProcessError::InvalidInstructionData));
    assert_eq!(Processor::payload_text(&[]), Ok(String::new()));
}

#[test]
fn tags_match_exactly() {
    assert_eq!(Operation::from_tag(&"CreateCustomer".to_string()), Operation::CreateCustomer);
    assert_eq!(Operation::from_tag(&"UpdateKycStatus".to_string()), Operation::UpdateKycStatus);
    assert_eq!(Operation::from_tag(&"GetCustomer".to_string()), Operation::GetCustomer);
    assert_eq!(Operation::from_tag(&"getcustomer".to_string()), Operation::Unknown);
    assert_eq!(Operation::from_tag(&"CreateCustomer ".to_string()), Operation::Unknown);
}

#[test]
fn error_codes() {
    assert_eq!(CustomerDataError::InvalidInstruction.code(), 0);
    assert_eq!(CustomerDataError::MissingCustomerId.code(), 1);
    assert_eq!(CustomerDataError::InvalidCustomerId.code(), 2);
}

#[test]
fn same_key_compares_all_bytes() {
    assert!(program().same(&program()));
    assert!(!program().same(&stranger()));
}
