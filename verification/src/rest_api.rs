use vstd::prelude::*;

verus! {

/// The body of every API answer: whether the call succeeded, an error
/// message on failure, the data on success.
#[derive(Debug, Clone)]
pub struct ApiResponse<T> {
    pub success: bool,
    pub message: Option<String>,
    pub data: Option<T>,
}

impl<T> ApiResponse<T> {
    /// A successful answer carrying `data`.
    pub fn success(data: T) -> (res: Self)
        ensures
            res.success,
            res.message is None,
            res.data == Some(data),
    {
        ApiResponse { success: true, message: None, data: Some(data) }
    }

    /// A failed answer carrying the message `msg`.
    pub fn error(msg: &str) -> (res: Self)
        ensures
            !res.success,
            res.message matches Some(m) && m@ == msg@,
            res.data is None,
    {
        ApiResponse { success: false, message: Some(String::from_str(msg)), data: None }
    }
}

/// A balance request: whose balance, in which coin.
#[derive(Debug, Clone)]
pub struct BalanceQuery {
    pub user_id: String,
    pub coin: String,
}

} // verus!
