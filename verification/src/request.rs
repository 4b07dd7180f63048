use vstd::prelude::*;

verus! {

/// An outgoing GET request being assembled: the target URL, and the value of
/// the `Authorization` header once credentials have been attached. The HTTP
/// method is always GET, so it is not represented.
pub struct Request {
    pub url: String,
    pub authorization: Option<String>,
}

/// The mathematical picture of a [`Request`]: the URL's characters and the
/// `Authorization` header's characters, if one is set.
pub struct ReqView {
    pub url: Seq<char>,
    pub authorization: Option<Seq<char>>,
}

impl View for Request {
    type V = ReqView;

    open spec fn view(&self) -> ReqView {
        ReqView {
            url: self.url@,
            authorization: match self.authorization {
                Some(h) => Some(h@),
                None => None,
            },
        }
    }
}

impl Request {
    /// A fresh GET request for `url`, with no credentials attached yet.
    pub fn get(url: String) -> (r: Request)
        ensures
            r@.url == url@,
            r@.authorization is None,
    {
        Request { url, authorization: None }
    }
}

} // verus!
