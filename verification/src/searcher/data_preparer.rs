use vstd::prelude::*;

verus! {

/// What a data preparer hands on: the bytes that are left for the oracle to
/// process and the service data (the chaining state) computed from the rest.
pub struct DataPrepareResult {
    pub data_remains: Vec<u8>,
    pub service_data: Vec<u8>,
}

/// Preprocesses the message before the search: consumes what can be computed
/// classically and returns the remainder together with service data.
pub trait DataPreparer {
    /// Whether `remains` and `service` are a result that preparing `data`
    /// may give.
    spec fn prepares(&self, data: Seq<u8>, remains: Seq<u8>, service: Seq<u8>) -> bool;

    fn prepare(&self, data: &Vec<u8>) -> (res: DataPrepareResult)
        ensures
            self.prepares(data@, res.data_remains@, res.service_data@),
    ;
}

} // verus!
