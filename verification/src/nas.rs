//! The address of a NAS.

use vstd::prelude::*;

verus! {

/// Whether a host is given with the port on which a NAS speaks plain HTTP.
pub open spec fn on_plain_port(host: Seq<char>) -> bool {
    host.len() >= 5 && host.skip(host.len() - 5) == seq![':', '5', '0', '0', '0']
}

/// The address of a NAS: HTTPS, on port 5001 where no port is given; on port 5000 it is HTTP.
pub open spec fn base_url_text(host: Seq<char>) -> Seq<char> {
    if on_plain_port(host) {
        "http://"@ + host
    } else if host.contains(':') {
        "https://"@ + host
    } else {
        "https://"@ + host + ":5001"@
    }
}

/// The address of a NAS.
pub fn build_base_url(host: &str) -> (url: String)
    ensures
        url@ == base_url_text(host@),
{
    let mut chars: Vec<char> = Vec::new();
    let mut has_port = false;
    assert(chars@ =~= host@.take(0));
    for c in it: host.chars()
        invariant
            it.seq() == host@,
            chars@ == host@.take(it.index() as int),
            has_port == host@.take(it.index() as int).contains(':'),
    {
        let ghost k = it.index() as int;
        let ghost before = host@.take(k);
        assert(host@.take(k + 1) =~= before.push(c));
        chars.push(c);
        proof {
            if before.contains(':') {
                let i = choose|i: int| 0 <= i < before.len() && before[i] == ':';
                assert(before.push(c)[i] == ':');
            }
            if c == ':' {
                assert(before.push(c)[k] == ':');
            }
        }
        if c == ':' {
            has_port = true;
        }
    }
    assert(host@.take(host@.len() as int) =~= host@);
    let n: usize = chars.len();
    if n >= 5 && chars[n - 5] == ':' && chars[n - 4] == '5' && chars[n - 3] == '0' && chars[n - 2]
        == '0' && chars[n - 1] == '0' {
        assert(host@.skip(n - 5) =~= seq![':', '5', '0', '0', '0']);
        let mut url = String::new();
        url.append("http://");
        url.append(host);
        assert(url@ =~= base_url_text(host@));
        return url;
    }
    proof {
        if n >= 5 && host@.skip(n - 5) == seq![':', '5', '0', '0', '0'] {
            let tail = host@.skip(n - 5);
            assert(tail[0] == chars@[n - 5] && tail[1] == chars@[n - 4] && tail[2] == chars@[n - 3]
                && tail[3] == chars@[n - 2] && tail[4] == chars@[n - 1]);
        }
    }
    let mut url = String::new();
    url.append("https://");
    url.append(host);
    if !has_port {
        url.append(":5001");
    }
    assert(url@ =~= base_url_text(host@));
    url
}

/// The address holds the host as it was given, behind its scheme. It is plain HTTP just where the
/// port is given as 5000, and the port 5001 is added just where none is given.
pub proof fn law_address_holds_the_host(host: Seq<char>, name: Seq<char>)
    requires
        !name.contains(':'),
    ensures
        base_url_text(name) == "https://"@ + name + ":5001"@,
        base_url_text(name + ":5000"@) == "http://"@ + name + ":5000"@,
        host.contains(':') && !(":5000"@.is_suffix_of(host)) ==> base_url_text(host) == "https://"@
            + host,
{
    reveal_strlit(":5000");
    let tail = seq![':', '5', '0', '0', '0'];
    assert(":5000"@ =~= tail);
    if on_plain_port(name) {
        assert(name.skip(name.len() - 5)[0] == ':');
        assert(name[name.len() - 5] == ':');
    }
    let full = name + ":5000"@;
    assert(full.skip(full.len() - 5) =~= tail);
    assert("http://"@ + full =~= "http://"@ + name + ":5000"@);
    if on_plain_port(host) {
        assert(host.skip(host.len() - 5) =~= host.subrange(host.len() - 5, host.len() as int));
        assert(":5000"@.is_suffix_of(host));
    }
}

} // verus!
