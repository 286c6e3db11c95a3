use vstd::prelude::*;

pub use crate::databases::ServerHost;
use crate::lcpc_online::commit::{PoSCommit, PoSRoot};

verus! {

/// A known server: its optional name, its address and its port.
#[derive(Debug, Clone)]
pub struct ServerMetaData {
    pub server_name: Option<String>,
    pub server_ip: String,
    pub server_port: u16,
}

/// What a client keeps about a file it stored: the shape of the committed matrix, the
/// file size, where it is stored, and the commitment root.
#[derive(Debug, Clone)]
pub struct ClientOwnedFileMetadata {
    pub filename: String,
    pub num_rows: usize,
    pub num_columns: usize,
    pub num_encoded_columns: usize,
    pub filesize_in_bytes: usize,
    pub stored_server: ServerHost,
    pub root: PoSRoot,
}

impl ClientOwnedFileMetadata {
    /// The number of data columns: half the encoded columns.
    pub fn get_file_columns(&self) -> (r: usize)
        ensures
            r == self.num_encoded_columns / 2,
    {
        self.num_encoded_columns / 2
    }

    /// The number of rows, and where the file's size falls within a row of encoded
    /// columns.
    pub fn get_end_coordinates(&self) -> (r: (usize, usize))
        requires
            self.num_encoded_columns > 0,
        ensures
            r.0 == self.num_rows,
            r.1 == self.filesize_in_bytes % self.num_encoded_columns,
    {
        (self.num_rows, self.filesize_in_bytes % self.num_encoded_columns)
    }
}

/// What a server keeps about a file it stores: its name, its owner and the full
/// commitment.
#[derive(Debug, Clone)]
pub struct ServerOwnedFileMetadata {
    pub filename: String,
    pub owner: String,
    pub commitment: PoSCommit,
}

} // verus!
