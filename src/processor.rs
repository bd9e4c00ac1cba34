//! Carrying out one request against the ledger held in an account's buffer.
use vstd::prelude::*;
use crate::codec::{
    decode_ledger, enc_ledger, encode_ledger, ledger_fits, ledger_of, lemma_decode_encoded,
    lemma_decoded_is_prefix, lemma_ledger_of_stored, lemma_update_keeps_length, parse_ledger,
    record_fits, record_texts, stored, string_from_utf8,
};
use crate::error::{CustomerDataError, ProcessError};
use crate::state::{CustomerData, CustomerDataList, CustomerView};
use vstd::utf8::{decode_utf8, encode_utf8_decode_utf8, valid_utf8};

verus! {

/// A 32-byte account or program identity.
#[derive(Clone, Copy, Debug)]
pub struct Pubkey {
    pub bytes: [u8; 32],
}

impl Pubkey {
    pub fn same(&self, other: &Pubkey) -> (r: bool)
        ensures
            r == (self.bytes@ == other.bytes@),
    {
        let mut i: usize = 0;
        while i < 32
            invariant
                i <= 32,
                self.bytes@.len() == 32,
                other.bytes@.len() == 32,
                forall|j: int| 0 <= j < i ==> self.bytes@[j] == other.bytes@[j],
            decreases 32 - i,
        {
            if self.bytes[i] != other.bytes[i] {
                return false;
            }
            i += 1;
        }
        assert(self.bytes@ =~= other.bytes@);
        true
    }
}

/// What a request asks for, decided by its instruction tag.
#[derive(Clone, Copy, Debug, PartialEq, Eq, Structural)]
pub enum Operation {
    CreateCustomer,
    UpdateKycStatus,
    GetCustomer,
    Unknown,
}

/// The operation named by an instruction tag; tags match exactly, case included.
pub open spec fn operation_of(tag: Seq<char>) -> Operation {
    if tag == "CreateCustomer"@ {
        Operation::CreateCustomer
    } else if tag == "UpdateKycStatus"@ {
        Operation::UpdateKycStatus
    } else if tag == "GetCustomer"@ {
        Operation::GetCustomer
    } else {
        Operation::Unknown
    }
}

impl Operation {
    pub fn from_tag(tag: &String) -> (r: Operation)
        ensures
            r == operation_of(tag@),
    {
        if *tag == "CreateCustomer".to_owned() {
            Operation::CreateCustomer
        } else if *tag == "UpdateKycStatus".to_owned() {
            Operation::UpdateKycStatus
        } else if *tag == "GetCustomer".to_owned() {
            Operation::GetCustomer
        } else {
            Operation::Unknown
        }
    }
}

pub open spec fn key_matches(r: CustomerView, id: Seq<char>, lei: Seq<char>) -> bool {
    r.customer_id == id && r.lei == lei
}

/// Index `i` holds the first record of `l` keyed by (`id`, `lei`).
pub open spec fn is_first_match(l: Seq<CustomerView>, id: Seq<char>, lei: Seq<char>, i: int) -> bool {
    0 <= i < l.len() && key_matches(l[i], id, lei) && forall|j: int|
        0 <= j < i ==> !key_matches(#[trigger] l[j], id, lei)
}

pub open spec fn with_kyc(r: CustomerView, kyc: bool) -> CustomerView {
    CustomerView { kyc_status: kyc, ..r }
}

/// The ledger after a KYC status update carried by `req`, or why there is none.
pub open spec fn apply_update(l: Seq<CustomerView>, req: CustomerView) -> Result<
    Seq<CustomerView>,
    CustomerDataError,
> {
    if req.customer_id.len() == 0 || req.lei.len() == 0 {
        Err(CustomerDataError::MissingCustomerId)
    } else if exists|i: int| is_first_match(l, req.customer_id, req.lei, i) {
        let i = choose|i: int| is_first_match(l, req.customer_id, req.lei, i);
        Ok(l.update(i, with_kyc(l[i], req.kyc_status)))
    } else {
        Err(CustomerDataError::InvalidCustomerId)
    }
}

/// Writing ledger `l` over the start of buffer `data`; the rest of the buffer
/// is kept. A ledger whose encoding does not fit leaves the buffer as it was.
pub open spec fn store_ledger(l: Seq<CustomerView>, data: Seq<u8>) -> (Result<(), ProcessError>, Seq<u8>) {
    if ledger_fits(l) && enc_ledger(l).len() <= data.len() {
        (Ok(()), enc_ledger(l) + data.subrange(enc_ledger(l).len() as int, data.len() as int))
    } else {
        (Err(ProcessError::AccountDataTooSmall), data)
    }
}

/// The result of a request, and the account's buffer after it.
///
/// `request` is the decoded payload, `None` where the payload could not be
/// decoded.
pub open spec fn process_outcome(
    program_id: Seq<u8>,
    owner: Seq<u8>,
    request: Option<CustomerView>,
    data: Seq<u8>,
) -> (Result<(), ProcessError>, Seq<u8>) {
    if owner != program_id {
        (Err(ProcessError::Custom(CustomerDataError::InvalidInstruction)), data)
    } else {
        match request {
            None => (Err(ProcessError::InvalidInstructionData), data),
            Some(req) => match operation_of(req.instruction) {
                Operation::CreateCustomer => store_ledger(ledger_of(data).push(stored(req)), data),
                Operation::UpdateKycStatus => match apply_update(ledger_of(data), req) {
                    Ok(l) => store_ledger(l, data),
                    Err(e) => (Err(ProcessError::Custom(e)), data),
                },
                _ => (Ok(()), data),
            },
        }
    }
}

/// The request handler of the ledger program.
pub struct Processor;

impl Processor {
    /// Appends `customer` to the ledger.
    pub fn create_customer(customer: CustomerData, customers: &mut CustomerDataList)
        ensures
            final(customers)@ == old(customers)@.push(customer@),
    {
        let ghost before = customers@;
        let ghost c = customer@;
        customers.data.push(customer);
        assert(customers@ =~= before.push(c));
    }

    /// Sets the KYC status of the first record keyed like `customer`.
    pub fn update_customer(customer: CustomerData, customers: &mut CustomerDataList) -> (r: Result<
        (),
        CustomerDataError,
    >)
        ensures
            match apply_update(old(customers)@, customer@) {
                Ok(l) => r is Ok && final(customers)@ == l,
                Err(e) => r == Err::<(), CustomerDataError>(e) && final(customers)@ == old(
                    customers,
                )@,
            },
    {
        if customer.customer_id.as_str().is_empty() || customer.lei.as_str().is_empty() {
            return Err(CustomerDataError::MissingCustomerId);
        }
        let ghost l = customers@;
        let ghost id = customer@.customer_id;
        let ghost lei = customer@.lei;
        let mut i: usize = 0;
        while i < customers.data.len()
            invariant
                i <= l.len(),
                customers@ == l,
                l == old(customers)@,
                id == customer.customer_id@,
                lei == customer.lei@,
                id.len() > 0,
                lei.len() > 0,
                forall|j: int| 0 <= j < i ==> !key_matches(#[trigger] l[j], id, lei),
            decreases l.len() - i,
        {
            let rec = &customers.data[i];
            let same_id = rec.customer_id.eq(&customer.customer_id);
            let same_lei = rec.lei.eq(&customer.lei);
            if same_id && same_lei {
                proof {
                    assert(l[i as int] == customers.data@[i as int]@);
                    assert(is_first_match(l, id, lei, i as int));
                    let k = choose|k: int| is_first_match(l, id, lei, k);
                    assert(is_first_match(l, id, lei, k));
                    if k < i {
                        assert(!key_matches(l[k], id, lei));
                    }
                    if k > i {
                        assert(!key_matches(l[i as int], id, lei));
                    }
                }
                customers.data[i].kyc_status = customer.kyc_status;
                assert(customers@ =~= l.update(i as int, with_kyc(l[i as int], customer.kyc_status)));
                return Ok(());
            }
            assert(l[i as int] == customers.data@[i as int]@);
            assert(!key_matches(l[i as int], id, lei));
            i += 1;
        }
        Err(CustomerDataError::InvalidCustomerId)
    }

    /// The text of a request payload; a payload that is not UTF-8 is refused.
    pub fn payload_text(instruction_data: &[u8]) -> (r: Result<String, ProcessError>)
        ensures
            r is Ok <==> valid_utf8(instruction_data@),
            r matches Ok(s) ==> s@ == decode_utf8(instruction_data@),
            r matches Err(e) ==> e == ProcessError::InvalidInstructionData,
    {
        let mut bytes: Vec<u8> = Vec::new();
        let mut i: usize = 0;
        while i < instruction_data.len()
            invariant
                i <= instruction_data@.len(),
                bytes@ == instruction_data@.subrange(0, i as int),
            decreases instruction_data@.len() - i,
        {
            bytes.push(instruction_data[i]);
            i += 1;
            assert(bytes@ =~= instruction_data@.subrange(0, i as int));
        }
        assert(bytes@ =~= instruction_data@);
        match string_from_utf8(bytes) {
            Some(s) => {
                proof {
                    encode_utf8_decode_utf8(s@);
                }
                Ok(s)
            },
            None => Err(ProcessError::InvalidInstructionData),
        }
    }

    fn write_back(l: &CustomerDataList, data: &mut Vec<u8>) -> (r: Result<(), ProcessError>)
        ensures
            (r, final(data)@) == store_ledger(l@, old(data)@),
    {
        match encode_ledger(l, data.len()) {
            None => Err(ProcessError::AccountDataTooSmall),
            Some(bytes) => {
                let ghost before = data@;
                let mut i: usize = 0;
                while i < bytes.len()
                    invariant
                        i <= bytes@.len(),
                        bytes@.len() <= before.len(),
                        data@.len() == before.len(),
                        data@ == bytes@.subrange(0, i as int) + before.subrange(
                            i as int,
                            before.len() as int,
                        ),
                    decreases bytes@.len() - i,
                {
                    data[i] = bytes[i];
                    i += 1;
                    assert(data@ =~= bytes@.subrange(0, i as int) + before.subrange(
                        i as int,
                        before.len() as int,
                    ));
                }
                assert(bytes@.subrange(0, i as int) =~= bytes@);
                Ok(())
            },
        }
    }

    /// Carries out one request on the ledger held in `data`, the buffer of an
    /// account owned by `owner`. `request` is the decoded payload, `None`
    /// where it could not be decoded.
    pub fn process(
        program_id: &Pubkey,
        owner: &Pubkey,
        request: Option<CustomerData>,
        data: &mut Vec<u8>,
    ) -> (r: Result<(), ProcessError>)
        ensures
            (r, final(data)@) == process_outcome(
                program_id.bytes@,
                owner.bytes@,
                match request {
                    Some(c) => Some(c@),
                    None => None,
                },
                old(data)@,
            ),
    {
        if !owner.same(program_id) {
            return Err(ProcessError::Custom(CustomerDataError::InvalidInstruction));
        }
        let mut customer = match request {
            Some(c) => c,
            None => {
                return Err(ProcessError::InvalidInstructionData);
            },
        };
        match Operation::from_tag(&customer.instruction) {
            Operation::CreateCustomer => {
                let mut customers = decode_ledger(data.as_slice());
                customer.instruction = String::new();
                Self::create_customer(customer, &mut customers);
                Self::write_back(&customers, data)
            },
            Operation::UpdateKycStatus => {
                let mut customers = decode_ledger(data.as_slice());
                match Self::update_customer(customer, &mut customers) {
                    Ok(()) => Self::write_back(&customers, data),
                    Err(e) => Err(ProcessError::Custom(e)),
                }
            },
            _ => Ok(()),
        }
    }
}

/// A create request from the owning program appends the record, as
/// the layout keeps it, to the ledger in the buffer; every earlier record is
/// kept in its place. The request fails only where the grown ledger does not
/// fit the buffer, and then the buffer is left as it was.
pub proof fn law_insert(program_id: Seq<u8>, req: CustomerView, data: Seq<u8>)
    requires
        operation_of(req.instruction) == Operation::CreateCustomer,
    ensures
        ({
            let (r, after) = process_outcome(program_id, program_id, Some(req), data);
            &&& r is Ok ==> ledger_of(after) == ledger_of(data).push(stored(req))
            &&& r is Err ==> r == Err::<(), ProcessError>(ProcessError::AccountDataTooSmall)
                && after == data
        }),
{
    let l = ledger_of(data).push(stored(req));
    let (r, after) = process_outcome(program_id, program_id, Some(req), data);
    if r is Ok {
        let rest = data.subrange(enc_ledger(l).len() as int, data.len() as int);
        lemma_decode_encoded(l, rest);
        lemma_ledger_of_stored(data);
        assert(l.map_values(|x: CustomerView| stored(x)) =~= ledger_of(data).map_values(
            |x: CustomerView| stored(x),
        ).push(stored(req)));
    }
}

/// An update from the owning program whose (customer id, LEI)
/// pair the ledger holds always succeeds, and the buffer then holds the same
/// ledger with the KYC status of the first such record set to the request's;
/// no other record and no other field changes.
pub proof fn law_update_match(program_id: Seq<u8>, req: CustomerView, data: Seq<u8>, i: int)
    requires
        operation_of(req.instruction) == Operation::UpdateKycStatus,
        req.customer_id.len() > 0,
        req.lei.len() > 0,
        is_first_match(ledger_of(data), req.customer_id, req.lei, i),
    ensures
        ({
            let (r, after) = process_outcome(program_id, program_id, Some(req), data);
            &&& r is Ok
            &&& ledger_of(after) == ledger_of(data).update(
                i,
                with_kyc(ledger_of(data)[i], req.kyc_status),
            )
        }),
{
    let l = ledger_of(data);
    let id = req.customer_id;
    let lei = req.lei;
    assert(parse_ledger(data) is Some);
    lemma_decoded_is_prefix(data);
    let k = choose|k: int| is_first_match(l, id, lei, k);
    assert(is_first_match(l, id, lei, k));
    if k < i {
        assert(!key_matches(l[k], id, lei));
    }
    if k > i {
        assert(!key_matches(l[i], id, lei));
    }
    let x = with_kyc(l[i], req.kyc_status);
    let l2 = l.update(i, x);
    assert(record_texts(x) =~= record_texts(l[i]));
    lemma_update_keeps_length(l, i, x);
    assert forall|j: int| 0 <= j < l2.len() implies record_fits(#[trigger] l2[j]) by {
        if j != i {
            assert(l2[j] == l[j]);
        }
        assert(record_fits(l[j]));
    }
    let rest = data.subrange(enc_ledger(l2).len() as int, data.len() as int);
    lemma_decode_encoded(l2, rest);
    lemma_ledger_of_stored(data);
    assert forall|j: int| 0 <= j < l2.len() implies stored(#[trigger] l2[j]) == l2[j] by {
        assert(stored(l[j]) == l.map_values(|r: CustomerView| stored(r))[j]);
    }
    assert(l2.map_values(|r: CustomerView| stored(r)) =~= l2);
}

/// An update that names no customer id or no LEI is refused
/// as missing its key and leaves the buffer byte for byte as it was.
pub proof fn law_update_without_key(program_id: Seq<u8>, req: CustomerView, data: Seq<u8>)
    requires
        operation_of(req.instruction) == Operation::UpdateKycStatus,
        req.customer_id.len() == 0 || req.lei.len() == 0,
    ensures
        process_outcome(program_id, program_id, Some(req), data) == (
        Err::<(), ProcessError>(ProcessError::Custom(CustomerDataError::MissingCustomerId)),
        data,
    ),
{
}

/// An update whose (customer id, LEI) pair no record of the
/// ledger holds is reported as an invalid customer id, and the buffer is kept.
pub proof fn law_update_without_match(program_id: Seq<u8>, req: CustomerView, data: Seq<u8>)
    requires
        operation_of(req.instruction) == Operation::UpdateKycStatus,
        req.customer_id.len() > 0,
        req.lei.len() > 0,
        forall|i: int|
            0 <= i < ledger_of(data).len() ==> !key_matches(
                #[trigger] ledger_of(data)[i],
                req.customer_id,
                req.lei,
            ),
    ensures
        process_outcome(program_id, program_id, Some(req), data) == (
        Err::<(), ProcessError>(ProcessError::Custom(CustomerDataError::InvalidCustomerId)),
        data,
    ),
{
}

/// When the account's owner is not the program, any
/// request is refused as an invalid instruction and the buffer is untouched.
pub proof fn law_unauthorized(
    program_id: Seq<u8>,
    owner: Seq<u8>,
    request: Option<CustomerView>,
    data: Seq<u8>,
)
    requires
        owner != program_id,
    ensures
        process_outcome(program_id, owner, request, data) == (
        Err::<(), ProcessError>(ProcessError::Custom(CustomerDataError::InvalidInstruction)),
        data,
    ),
{
}

/// A read request, or one with a tag that names no operation, leaves the
/// buffer byte for byte as it was, whoever makes it.
pub proof fn law_read_keeps_buffer(
    program_id: Seq<u8>,
    owner: Seq<u8>,
    req: CustomerView,
    data: Seq<u8>,
)
    requires
        operation_of(req.instruction) == Operation::GetCustomer || operation_of(req.instruction)
            == Operation::Unknown,
    ensures
        process_outcome(program_id, owner, Some(req), data).1 == data,
{
}

} // verus!
