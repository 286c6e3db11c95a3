use vstd::prelude::*;

use crate::fields::data_field::DataField;
use crate::lcpc_online::commit::{PoSCommit, PoSRoot};

verus! {

/// Where a file is stored: the server's optional name, its address and its port.
#[derive(Debug, Clone)]
pub struct ServerHost {
    pub server_name: Option<String>,
    pub server_ip: String,
    pub server_port: u16,
}

/// What a client keeps about a stored file: its identifier and name, the shape of the
/// committed matrix, its size, where it is stored, and the commitment root.
#[derive(Debug, Clone)]
pub struct FileMetadata {
    pub id_ulid: u128,
    pub filename: String,
    pub num_rows: usize,
    pub num_columns: usize,
    pub num_encoded_columns: usize,
    pub filesize_in_bytes: usize,
    pub stored_server: ServerHost,
    pub root: PoSRoot,
}

impl FileMetadata {
    /// The number of rows, and where the file's last byte falls within a row of
    /// `num_encoded_columns` elements of `F`.
    pub fn get_end_coefficient_coordinates<F: DataField>(&self) -> (r: (usize, usize))
        requires
            self.num_encoded_columns > 0,
            self.num_encoded_columns * F::spec_data_byte_capacity() <= usize::MAX,
        ensures
            r.0 == self.num_rows,
            r.1 == (self.filesize_in_bytes as nat) % (self.num_encoded_columns * F::spec_data_byte_capacity()) as nat,
    {
        let cap = F::data_byte_capacity();
        let width = self.num_encoded_columns * cap;
        assert(width > 0) by (nonlinear_arith)
            requires width == self.num_encoded_columns * cap, self.num_encoded_columns > 0, cap > 0;
        (self.num_rows, self.filesize_in_bytes % width)
    }

    /// How many bytes of the last coefficient the file fills (zero when it ends on a
    /// coefficient boundary).
    pub fn get_last_coefficient_write_byte_offset<F: DataField>(&self) -> (r: usize)
        ensures
            r == (self.filesize_in_bytes as nat) % F::spec_data_byte_capacity(),
    {
        self.filesize_in_bytes % F::data_byte_capacity()
    }

    /// The number of data bytes one row of the data matrix holds.
    pub fn bytes_in_a_row<F: DataField>(&self) -> (r: usize)
        requires
            self.num_columns * F::spec_data_byte_capacity() <= usize::MAX,
        ensures
            r == self.num_columns * F::spec_data_byte_capacity(),
    {
        self.num_columns * F::data_byte_capacity()
    }
}

/// A user account a server knows: the name and the hash of the password.
#[derive(Debug, Clone)]
pub struct User {
    pub id_string: String,
    pub hashed_password: String,
}

/// A client's record of a file it stored on a server.
#[derive(Debug, Clone)]
pub struct ClientRecord {
    pub id_string: u128,
    pub hosted_on: ServerHost,
    pub metadata: FileMetadata,
}

/// A server's record of a file it stores: the owner and the full commitment.
#[derive(Debug, Clone)]
pub struct ServerFileMetadata {
    pub id_string: u128,
    pub filename: String,
    pub owner: String,
    pub commitment: PoSCommit,
}

} // verus!
