use crate::encoding::{encode_key, key_segment};
use vstd::prelude::*;
use vstd::string::StringExecFns;

verus! {

/// What identifies and authorises access to one key-value namespace.
pub struct Credential {
    pub token: String,
    pub account_id: String,
    pub kv_id: String,
}

/// The request path that addresses a namespace, up to its final slash.
pub open spec fn namespace_root(account_id: Seq<char>, kv_id: Seq<char>) -> Seq<char> {
    "https://api.cloudflare.com/client/v4/accounts/"@ + account_id + "/storage/kv/namespaces/"@
        + kv_id + "/"@
}

/// The target of the call that lists every key of the namespace.
pub open spec fn keys_url_spec(account_id: Seq<char>, kv_id: Seq<char>) -> Seq<char> {
    namespace_root(account_id, kv_id) + "keys"@
}

/// The target of the call that fetches the value of one key.
pub open spec fn value_url_spec(account_id: Seq<char>, kv_id: Seq<char>, key: Seq<char>) -> Seq<
    char,
> {
    namespace_root(account_id, kv_id) + "values/"@ + key_segment(key)
}

impl Credential {
    pub fn new(token: String, account_id: String, kv_id: String) -> (r: Credential)
        ensures
            r.token@ == token@,
            r.account_id@ == account_id@,
            r.kv_id@ == kv_id@,
    {
        Credential { token, account_id, kv_id }
    }

    fn namespace_root(&self) -> (r: String)
        ensures
            r@ == namespace_root(self.account_id@, self.kv_id@),
    {
        let mut url = "https://api.cloudflare.com/client/v4/accounts/".to_owned();
        url.append(self.account_id.as_str());
        url.append("/storage/kv/namespaces/");
        url.append(self.kv_id.as_str());
        url.append("/");
        url
    }

    /// The target of the listing call.
    pub fn keys_url(&self) -> (r: String)
        ensures
            r@ == keys_url_spec(self.account_id@, self.kv_id@),
    {
        let mut url = self.namespace_root();
        url.append("keys");
        url
    }

    /// The target of the fetch of one key; the key is percent-encoded.
    pub fn value_url(&self, key: &str) -> (r: String)
        ensures
            r@ == value_url_spec(self.account_id@, self.kv_id@, key@),
    {
        let mut url = self.namespace_root();
        url.append("values/");
        let segment = encode_key(key);
        url.append(segment.as_str());
        url
    }

    /// The value of the `Authorization` header of every request.
    pub fn authorization(&self) -> (r: String)
        ensures
            r@ == "Bearer "@ + self.token@,
    {
        let mut header = "Bearer ".to_owned();
        header.append(self.token.as_str());
        header
    }

    /// One fetch target per listed key, in the order of the keys.
    pub fn fetch_urls(&self, keys: &Vec<String>) -> (r: Vec<String>)
        ensures
            r.len() == keys.len(),
            forall|i: int|
                0 <= i < keys.len() ==> #[trigger] r[i]@ == value_url_spec(
                    self.account_id@,
                    self.kv_id@,
                    keys[i]@,
                ),
    {
        let mut urls: Vec<String> = Vec::new();
        let mut i: usize = 0;
        while i < keys.len()
            invariant
                i <= keys.len(),
                urls.len() == i,
                forall|j: int|
                    0 <= j < i ==> #[trigger] urls[j]@ == value_url_spec(
                        self.account_id@,
                        self.kv_id@,
                        keys[j]@,
                    ),
            decreases keys.len() - i,
        {
            let url = self.value_url(keys[i].as_str());
            urls.push(url);
            i = i + 1;
        }
        urls
    }
}

} // verus!
