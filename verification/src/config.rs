//! What the daemon can be told, and where it finds and puts things.
use crate::endpoint::SocketAddr;
use vstd::prelude::*;

verus! {

/// How the daemon is set up.
#[derive(Debug)]
pub struct DaemonConfig {
    pub dht: DhtConfigFields,
    pub transport: TransportConfigFields,
    pub ipc: IpcConfigFields,
    pub stun_servers: Vec<String>,
}

/// How the directory is set up.
#[derive(Debug)]
pub struct DhtConfigFields {
    pub k: usize,
    pub alpha: usize,
    pub ttl_seconds: u32,
    pub heartbeat_interval_secs: u64,
    pub local_addr: Option<SocketAddr>,
    pub bootstrap_nodes: Vec<SocketAddr>,
}

/// How the transport is set up.
#[derive(Debug)]
pub struct TransportConfigFields {
    pub max_connections: usize,
    pub idle_timeout_secs: u64,
    pub keep_alive_secs: u64,
    pub bind_addr: Option<SocketAddr>,
    pub tso_port_start: u16,
}

/// Where applications reach the daemon.
#[derive(Debug)]
pub struct IpcConfigFields {
    pub uds_path: Option<String>,
    pub http_addr: Option<SocketAddr>,
}

/// The first of the local ports for simultaneous connections.
pub fn default_tso_port_start() -> (r: u16)
    ensures
        r == 50000,
{
    50000
}

/// How many nodes a bucket has room for.
pub fn default_k() -> (r: usize)
    ensures
        r == 20,
{
    20
}

/// How many nodes a lookup asks at a time.
pub fn default_alpha() -> (r: usize)
    ensures
        r == 3,
{
    3
}

/// For how long a record holds, in seconds.
pub fn default_ttl() -> (r: u32)
    ensures
        r == 300,
{
    300
}

/// How often a node stores its own record anew, in seconds.
pub fn default_heartbeat() -> (r: u64)
    ensures
        r == 150,
{
    150
}

/// How many connections there may be.
pub fn default_max_conns() -> (r: usize)
    ensures
        r == 256,
{
    256
}

/// After how many idle seconds a connection ends.
pub fn default_idle() -> (r: u64)
    ensures
        r == 30,
{
    30
}

/// How often an idle connection is kept alive, in seconds.
pub fn default_keepalive() -> (r: u64)
    ensures
        r == 15,
{
    15
}

/// Whether a list of strings is the usual list of STUN servers.
pub open spec fn are_default_stun_servers(s: Seq<String>) -> bool {
    &&& s.len() == 3
    &&& s[0]@ == "stun.miwifi.com:3478"@
    &&& s[1]@ == "stun.qq.com:3478"@
    &&& s[2]@ == "stun.l.google.com:19302"@
}

/// The usual STUN servers.
pub fn default_stun_servers() -> (r: Vec<String>)
    ensures
        are_default_stun_servers(r@),
{
    let mut r: Vec<String> = Vec::new();
    r.push("stun.miwifi.com:3478".to_string());
    r.push("stun.qq.com:3478".to_string());
    r.push("stun.l.google.com:19302".to_string());
    r
}

impl DhtConfigFields {
    /// Whether every field has its usual value.
    pub open spec fn is_default(&self) -> bool {
        &&& self.k == 20
        &&& self.alpha == 3
        &&& self.ttl_seconds == 300
        &&& self.heartbeat_interval_secs == 150
        &&& self.local_addr is None
        &&& self.bootstrap_nodes@.len() == 0
    }
}

impl Default for DhtConfigFields {
    fn default() -> (r: Self)
        ensures
            r.is_default(),
    {
        DhtConfigFields {
            k: default_k(),
            alpha: default_alpha(),
            ttl_seconds: default_ttl(),
            heartbeat_interval_secs: default_heartbeat(),
            local_addr: None,
            bootstrap_nodes: Vec::new(),
        }
    }
}

impl TransportConfigFields {
    /// Whether every field has its usual value.
    pub open spec fn is_default(&self) -> bool {
        &&& self.max_connections == 256
        &&& self.idle_timeout_secs == 30
        &&& self.keep_alive_secs == 15
        &&& self.bind_addr is None
        &&& self.tso_port_start == 50000
    }
}

impl Default for TransportConfigFields {
    fn default() -> (r: Self)
        ensures
            r.is_default(),
    {
        TransportConfigFields {
            max_connections: default_max_conns(),
            idle_timeout_secs: default_idle(),
            keep_alive_secs: default_keepalive(),
            bind_addr: None,
            tso_port_start: default_tso_port_start(),
        }
    }
}

impl Default for IpcConfigFields {
    fn default() -> (r: Self)
        ensures
            r.uds_path is None,
            r.http_addr is None,
    {
        IpcConfigFields { uds_path: None, http_addr: None }
    }
}

impl DaemonConfig {
    /// Whether every field has its usual value.
    pub open spec fn is_default(&self) -> bool {
        &&& self.dht.is_default()
        &&& self.transport.is_default()
        &&& self.ipc.uds_path is None
        &&& self.ipc.http_addr is None
        &&& are_default_stun_servers(self.stun_servers@)
    }

    /// The configuration that the daemon takes, of what its files held: that of the
    /// first file that could be read, and the usual one where none could.
    pub fn load_or_default(found: Vec<Option<DaemonConfig>>) -> (r: DaemonConfig)
        ensures
            match first_found(found@) {
                Some(config) => r == config,
                None => r.is_default(),
            },
    {
        let mut rest: Vec<Option<DaemonConfig>> = found;
        let ghost all = rest@;
        let mut r: Option<DaemonConfig> = None;
        assert(all.skip(all.len() as int) =~= Seq::empty());
        while rest.len() > 0
            invariant
                rest@ == all.subrange(0, rest@.len() as int),
                rest@.len() <= all.len(),
                r == first_found(all.skip(rest@.len() as int)),
            decreases rest@.len(),
        {
            let ghost n = rest@.len() as int;
            let ghost tail = all.skip(n - 1);
            assert(tail.drop_first() =~= all.skip(n));
            assert(tail[0] == all[n - 1]);
            match rest.pop() {
                Some(last) => {
                    if last.is_some() {
                        r = last;
                    }
                },
                None => {},
            }
            assert(rest@ =~= all.subrange(0, n - 1));
        }
        assert(all.skip(0) =~= all);
        match r {
            Some(config) => config,
            None => DaemonConfig::default(),
        }
    }
}

/// The first configuration of some that were sought.
pub open spec fn first_found(found: Seq<Option<DaemonConfig>>) -> Option<DaemonConfig>
    decreases found.len(),
{
    if found.len() == 0 {
        None
    } else if found[0] is Some {
        found[0]
    } else {
        first_found(found.drop_first())
    }
}

impl Default for DaemonConfig {
    fn default() -> (r: Self)
        ensures
            r.is_default(),
    {
        DaemonConfig {
            dht: DhtConfigFields::default(),
            transport: TransportConfigFields::default(),
            ipc: IpcConfigFields::default(),
            stun_servers: default_stun_servers(),
        }
    }
}

/// The names of the files that a configuration is sought in, in this order.
pub fn config_files() -> (r: Vec<String>)
    ensures
        r@.len() == 2,
        r@[0]@ == "lain.toml"@,
        r@[1]@ == "config.toml"@,
{
    let mut r: Vec<String> = Vec::new();
    r.push("lain.toml".to_string());
    r.push("config.toml".to_string());
    r
}

/// A name below a directory. The empty path is the directory that one is in.
pub open spec fn path_below(dir: Seq<char>, name: Seq<char>) -> Seq<char> {
    if dir.len() == 0 {
        name
    } else if dir.last() == '/' {
        dir + name
    } else {
        dir.push('/') + name
    }
}

/// A name below a directory.
pub fn join_path(dir: &str, name: &str) -> (r: String)
    ensures
        r@ == path_below(dir@, name@),
{
    let n: usize = dir.unicode_len();
    let mut r: String = dir.to_string();
    if n > 0 && dir.get_char(n - 1) != '/' {
        r.push('/');
    }
    r.push_str(name);
    assert(r@ =~= path_below(dir@, name@));
    r
}

/// The home directory: the one that is meant for the daemon, where it is given,
/// and else that of the user.
pub fn home_dir(lain_home: Option<String>, home: Option<String>) -> (r: Option<String>)
    ensures
        r == if lain_home is Some {
            lain_home
        } else {
            home
        },
{
    match lain_home {
        Some(h) => Some(h),
        None => home,
    }
}

/// A file of the daemon below the home directory.
pub open spec fn lain_path(home: Seq<char>, name: Seq<char>) -> Seq<char> {
    path_below(path_below(home, ".lain"@), name)
}

/// A file of the daemon below the home directory.
pub fn lain_file(home: &str, name: &str) -> (r: String)
    ensures
        r@ == lain_path(home@, name@),
{
    let dir: String = join_path(home, ".lain");
    join_path(dir.as_str(), name)
}

/// The path of the daemon's socket: the one that was asked for, where it is not
/// empty; else the one in the home directory; and one for temporary files where
/// there is no home directory.
pub fn ipc_socket(path: &str, home: Option<&str>) -> (r: String)
    ensures
        r@ == if path@.len() > 0 {
            path@
        } else {
            match home {
                Some(h) => lain_path(h@, "socket"@),
                None => "/tmp/lain.socket"@,
            }
        },
{
    if path.unicode_len() > 0 {
        return path.to_string();
    }
    match home {
        Some(h) => lain_file(h, "socket"),
        None => "/tmp/lain.socket".to_string(),
    }
}

/// The path that the daemon listens at: that of its configuration, or else that in
/// the home directory. Without either it does not listen.
pub fn listen_path(configured: Option<String>, home: Option<&str>) -> (r: Option<String>)
    ensures
        match (configured, home) {
            (Some(p), _) => r == Some(p),
            (None, Some(h)) => r is Some && r->0@ == lain_path(h@, "socket"@),
            (None, None) => r is None,
        },
{
    match configured {
        Some(p) => Some(p),
        None => match home {
            Some(h) => Some(lain_file(h, "socket")),
            None => None,
        },
    }
}

/// The configuration that is taken is that of one of the files, and no file before it could
/// be read. There is none exactly where no file could be.
pub proof fn law_first_found(found: Seq<Option<DaemonConfig>>)
    ensures
        first_found(found) is None <==> forall|i: int|
            0 <= i < found.len() ==> (#[trigger] found[i]) is None,
        first_found(found) is Some ==> exists|i: int|
            {
                &&& 0 <= i < found.len()
                &&& #[trigger] found[i] == first_found(found)
                &&& forall|j: int| 0 <= j < i ==> (#[trigger] found[j]) is None
            },
    decreases found.len(),
{
    if found.len() > 0 && found[0] is None {
        let rest = found.drop_first();
        law_first_found(rest);
        if first_found(rest) is Some {
            let i = choose|i: int|
                {
                    &&& 0 <= i < rest.len()
                    &&& #[trigger] rest[i] == first_found(rest)
                    &&& forall|j: int| 0 <= j < i ==> (#[trigger] rest[j]) is None
                };
            assert(found[i + 1] == first_found(found));
            assert forall|j: int| 0 <= j < i + 1 implies (#[trigger] found[j]) is None by {
                if j > 0 {
                    assert(rest[j - 1] is None);
                }
            }
        } else {
            assert forall|i: int| 0 <= i < found.len() implies (#[trigger] found[i]) is None by {
                if i > 0 {
                    assert(rest[i - 1] is None);
                }
            }
        }
    } else if found.len() > 0 {
        assert(found[0] == first_found(found));
    }
}

/// A usual configuration has 20 nodes to a bucket, asks three nodes at a time, keeps
/// records for five minutes and stores its own anew after half that time.
pub proof fn law_usual_configuration(c: DaemonConfig)
    requires
        c.is_default(),
    ensures
        c.dht.k == 20,
        c.dht.alpha == 3,
        c.dht.ttl_seconds == 300,
        2 * c.dht.heartbeat_interval_secs == c.dht.ttl_seconds,
        c.dht.bootstrap_nodes@.len() == 0,
        c.transport.keep_alive_secs < c.transport.idle_timeout_secs,
        c.transport.tso_port_start == 50000,
        c.stun_servers@.len() >= 2,
        c.ipc.http_addr is None,
{
}

/// A path below a directory starts with the directory and ends with the name, with one
/// slash between them, the one that the directory ends with where it does; below the empty
/// path there is the name alone.
pub proof fn law_path_below(dir: Seq<char>, name: Seq<char>)
    ensures
        ({
            let p = path_below(dir, name);
            let n = p.len() as int;
            &&& dir.len() <= n && p.subrange(0, dir.len() as int) == dir
            &&& name.len() <= n && p.subrange(n - name.len(), n) == name
            &&& dir.len() == 0 ==> p == name
            &&& dir.len() > 0 ==> p[n - name.len() - 1] == '/'
            &&& n == dir.len() + name.len() || n == dir.len() + name.len() + 1
            &&& n == dir.len() + name.len() + 1 <==> dir.len() > 0 && dir[dir.len() - 1] != '/'
        }),
{
    let p = path_below(dir, name);
    let n = p.len() as int;
    assert(p.subrange(0, dir.len() as int) =~= dir);
    assert(p.subrange(n - name.len(), n) =~= name);
}

} // verus!
