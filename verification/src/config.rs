//! The configuration of the server.

use vstd::prelude::*;

use crate::paths;
use crate::tenant::DbConfig;

verus! {

/// On what the server runs.
#[derive(Debug, Clone, Copy, PartialEq, Eq, Structural)]
pub enum Environment {
    Local,
    Production,
}

/// What the environment says, as far as it says anything.
#[derive(Debug)]
pub struct EnvValues {
    pub rocksdb_path: Option<String>,
    pub rocksdb_wal_path: Option<String>,
    pub checkpoint_path: Option<String>,
    pub grpc_addr: Option<String>,
    pub metrics_addr: Option<String>,
    pub s3_bucket: Option<String>,
    pub s3_endpoint: Option<String>,
    pub aws_region: Option<String>,
}

/// The configuration. Addresses are as they were given.
#[derive(Debug)]
pub struct Config {
    pub rocksdb_path: String,
    pub rocksdb_wal_path: String,
    pub checkpoint_path: String,
    pub grpc_addr: String,
    pub metrics_addr: String,
    pub s3_bucket: Option<String>,
    pub s3_endpoint: Option<String>,
    pub aws_region: String,
    pub block_cache_bytes: u64,
    pub env: Environment,
}

/// What was given, or what counts where nothing was.
pub open spec fn given_or(v: Option<String>, fallback: Seq<char>) -> Seq<char> {
    match v {
        Some(s) => s@,
        None => fallback,
    }
}

/// On what the server runs: data under `/data` is production data.
pub open spec fn environment_of(rocksdb_path: Seq<char>) -> Environment {
    if paths::lies_under(rocksdb_path, "/data"@) {
        Environment::Production
    } else {
        Environment::Local
    }
}

/// How much memory the block cache may use.
pub open spec fn cache_bytes(env: Environment) -> u64 {
    match env {
        Environment::Production => 4_294_967_296,
        Environment::Local => 268_435_456,
    }
}

/// What was given, or what counts where nothing was.
fn value_or(v: Option<String>, fallback: &str) -> (r: String)
    ensures
        r@ == given_or(v, fallback@),
{
    match v {
        Some(s) => s,
        None => fallback.to_owned(),
    }
}

impl Config {
    /// The configuration that the environment gives.
    pub fn from_env(values: EnvValues) -> (r: Self)
        ensures
            r.rocksdb_path@ == given_or(values.rocksdb_path, "./data/rocksqueue"@),
            r.rocksdb_wal_path@ == given_or(values.rocksdb_wal_path, "./data/rocksqueue-wal"@),
            r.checkpoint_path@ == given_or(values.checkpoint_path, "./data/checkpoints"@),
            r.grpc_addr@ == given_or(values.grpc_addr, "0.0.0.0:50051"@),
            r.metrics_addr@ == given_or(values.metrics_addr, "0.0.0.0:9090"@),
            r.s3_bucket == values.s3_bucket,
            r.s3_endpoint == values.s3_endpoint,
            r.aws_region@ == given_or(values.aws_region, "us-east-1"@),
            r.env == environment_of(r.rocksdb_path@),
            r.block_cache_bytes == cache_bytes(r.env),
    {
        let rocksdb_path = value_or(values.rocksdb_path, "./data/rocksqueue");
        let env = if paths::starts_with(rocksdb_path.as_str(), "/data") {
            Environment::Production
        } else {
            Environment::Local
        };
        let block_cache_bytes: u64 = match env {
            Environment::Production => 4 * 1024 * 1024 * 1024,
            Environment::Local => 256 * 1024 * 1024,
        };
        Config {
            rocksdb_path,
            rocksdb_wal_path: value_or(values.rocksdb_wal_path, "./data/rocksqueue-wal"),
            checkpoint_path: value_or(values.checkpoint_path, "./data/checkpoints"),
            grpc_addr: value_or(values.grpc_addr, "0.0.0.0:50051"),
            metrics_addr: value_or(values.metrics_addr, "0.0.0.0:9090"),
            s3_bucket: values.s3_bucket,
            s3_endpoint: values.s3_endpoint,
            aws_region: value_or(values.aws_region, "us-east-1"),
            block_cache_bytes,
            env,
        }
    }

    /// Whether the server runs on a developer's machine.
    pub fn is_local(&self) -> (r: bool)
        ensures
            r == (self.env == Environment::Local),
    {
        match self.env {
            Environment::Local => true,
            Environment::Production => false,
        }
    }

    /// The directories that are created before the store is opened: three on a
    /// developer's machine, none on a server.
    pub fn ensure_dirs(&self) -> (r: Vec<String>)
        ensures
            self.env == Environment::Local ==> r@.len() == 3 && r@[0]@ == self.rocksdb_path@
                && r@[1]@ == self.rocksdb_wal_path@ && r@[2]@ == self.checkpoint_path@,
            self.env == Environment::Production ==> r@.len() == 0,
    {
        let mut dirs: Vec<String> = Vec::new();
        if self.is_local() {
            dirs.push(self.rocksdb_path.clone());
            dirs.push(self.rocksdb_wal_path.clone());
            dirs.push(self.checkpoint_path.clone());
        }
        dirs
    }

    /// How the store is opened under this configuration.
    pub fn db_config(&self) -> (r: DbConfig)
        ensures
            r.sst_path@ == self.rocksdb_path@,
            r.wal_path@ == self.rocksdb_wal_path@,
            r.block_cache_bytes == self.block_cache_bytes,
            r.write_buffer_bytes == 64 * 1024 * 1024,
            r.max_write_buffers == 4,
    {
        DbConfig {
            sst_path: self.rocksdb_path.clone(),
            wal_path: self.rocksdb_wal_path.clone(),
            block_cache_bytes: self.block_cache_bytes,
            write_buffer_bytes: 64 * 1024 * 1024,
            max_write_buffers: 4,
        }
    }
}

/// What counts as production: a path whose first two components are the root and
/// `data`. There the cache has four gibibytes, elsewhere 256 mebibytes.
pub proof fn law_production_is_under_data(path: Seq<char>)
    ensures
        ({
            let c = paths::path_components(path);
            &&& environment_of(path) == Environment::Production <==> c.len() >= 2 && c[0]
                == seq![0x2fu8] && c[1] == seq![0x64u8, 0x61u8, 0x74u8, 0x61u8]
            &&& environment_of(path) == Environment::Production ==> cache_bytes(environment_of(path))
                == 4 * 1024 * 1024 * 1024
            &&& environment_of(path) == Environment::Local ==> cache_bytes(environment_of(path)) == 256
                * 1024 * 1024
        }),
{
    let base = "/data"@;
    reveal_strlit("/data");
    vstd::utf8::is_ascii_chars_encode_utf8(base);
    let b = vstd::utf8::encode_utf8(base);
    assert(base[0] as u8 == b[0] && base[1] as u8 == b[1] && base[2] as u8 == b[2] && base[3] as u8
        == b[3] && base[4] as u8 == b[4]);
    let name = seq![0x64u8, 0x61u8, 0x74u8, 0x61u8];
    let slash = seq![0x2fu8];
    assert(b =~= slash + name);
    paths::lemma_absolute(name);
    paths::law_where_a_path_leads(path, base);
    let c = paths::path_components(path);
    let s = paths::path_components(base);
    assert(s =~= seq![slash, name]);
    if paths::lies_under(path, base) {
        assert(c[0] == s[0] && c[1] == s[1]);
    }
}

/// What was given counts; the fallback does where nothing was.
pub proof fn law_given_counts(v: Option<String>, fallback: Seq<char>)
    ensures
        v matches Some(s) ==> given_or(v, fallback) == s@,
        v is None ==> given_or(v, fallback) == fallback,
{
}

} // verus!
