use vstd::prelude::*;

verus! {

/// One customer record, together with the instruction tag of the request
/// that carries it.
#[derive(Clone, Debug)]
pub struct CustomerData {
    pub instruction: String,
    pub customer_id: String,
    pub legal_name: String,
    pub registration_number: String,
    pub incorporation_country: String,
    pub lei_registration_status: String,
    pub lei: String,
    pub incorporation_date: String,
    pub primary_country_operation: String,
    pub primary_isic_code: String,
    pub entity_type: String,
    pub swift_code: String,
    pub kyc_status: bool,
    pub is_active: bool,
}

/// The mathematical value of a `CustomerData`: each text as its characters.
pub struct CustomerView {
    pub instruction: Seq<char>,
    pub customer_id: Seq<char>,
    pub legal_name: Seq<char>,
    pub registration_number: Seq<char>,
    pub incorporation_country: Seq<char>,
    pub lei_registration_status: Seq<char>,
    pub lei: Seq<char>,
    pub incorporation_date: Seq<char>,
    pub primary_country_operation: Seq<char>,
    pub primary_isic_code: Seq<char>,
    pub entity_type: Seq<char>,
    pub swift_code: Seq<char>,
    pub kyc_status: bool,
    pub is_active: bool,
}

impl View for CustomerData {
    type V = CustomerView;

    open spec fn view(&self) -> CustomerView {
        CustomerView {
            instruction: self.instruction@,
            customer_id: self.customer_id@,
            legal_name: self.legal_name@,
            registration_number: self.registration_number@,
            incorporation_country: self.incorporation_country@,
            lei_registration_status: self.lei_registration_status@,
            lei: self.lei@,
            incorporation_date: self.incorporation_date@,
            primary_country_operation: self.primary_country_operation@,
            primary_isic_code: self.primary_isic_code@,
            entity_type: self.entity_type@,
            swift_code: self.swift_code@,
            kyc_status: self.kyc_status,
            is_active: self.is_active,
        }
    }
}

/// A postal address of a customer.
#[derive(Clone, Debug)]
pub struct AddressData {
    pub address_type: String,
    pub address_line1: String,
    pub address_line2: String,
    pub city: String,
    pub state: String,
    pub country: String,
    pub postal_code: String,
}

/// A document filed for a customer's KYC review.
#[derive(Clone, Debug)]
pub struct KycDocument {
    pub document_id: String,
    pub document_name: String,
    pub document_category: String,
    pub document_status: String,
    pub last_modified: String,
    pub ipfs_transaction_id: String,
}

/// The ledger: customer records in insertion order.
#[derive(Clone, Debug)]
pub struct CustomerDataList {
    pub data: Vec<CustomerData>,
}

impl View for CustomerDataList {
    type V = Seq<CustomerView>;

    open spec fn view(&self) -> Seq<CustomerView> {
        self.data@.map_values(|r: CustomerData| r@)
    }
}

} // verus!
