use vstd::prelude::*;

verus! {

/// The value of the first setting named `key`.
pub open spec fn env_lookup(envs: Seq<(Seq<char>, Seq<char>)>, key: Seq<char>) -> Option<Seq<char>>
    decreases envs.len(),
{
    if envs.len() == 0 {
        None
    } else if envs[0].0 == key {
        Some(envs[0].1)
    } else {
        env_lookup(envs.skip(1), key)
    }
}

pub open spec fn env_view(envs: Seq<(String, String)>) -> Seq<(Seq<char>, Seq<char>)> {
    envs.map_values(|p: (String, String)| (p.0@, p.1@))
}

/// The setting named `key`, or `default` when there is none.
pub open spec fn text_setting(envs: Seq<(String, String)>, key: Seq<char>, default: Seq<char>) -> Seq<char> {
    match env_lookup(env_view(envs), key) {
        Some(v) => v,
        None => default,
    }
}

pub open spec fn is_decimal(s: Seq<char>) -> bool {
    s.len() > 0 && forall|i: int| 0 <= i < s.len() ==> '0' <= #[trigger] s[i] <= '9'
}

pub open spec fn decimal_value(s: Seq<char>) -> nat
    decreases s.len(),
{
    if s.len() == 0 {
        0
    } else {
        decimal_value(s.drop_last()) * 10 + (s.last() as nat - '0' as nat) as nat
    }
}

/// The number that the setting named `key` spells in decimal, if it is at
/// most `max`; `default` when the setting is absent or is no such number.
pub open spec fn number_setting(envs: Seq<(String, String)>, key: Seq<char>, max: nat, default: nat) -> nat {
    match env_lookup(env_view(envs), key) {
        Some(v) => if is_decimal(v) && decimal_value(v) <= max {
            decimal_value(v)
        } else {
            default
        },
        None => default,
    }
}

fn lookup_setting(envs: &Vec<(String, String)>, key: &str) -> (r: Option<String>)
    ensures
        r matches Some(v) ==> env_lookup(env_view(envs@), key@) == Some(v@),
        r is None ==> env_lookup(env_view(envs@), key@) is None,
{
    let ghost view = env_view(envs@);
    let wanted = key.to_owned();
    assert(view.skip(0) =~= view);
    let mut k: usize = 0;
    while k < envs.len()
        invariant
            k <= envs@.len(),
            view == env_view(envs@),
            wanted@ == key@,
            env_lookup(view, key@) == env_lookup(view.skip(k as int), key@),
        decreases envs@.len() - k,
    {
        assert(view.skip(k as int).skip(1) =~= view.skip(k + 1));
        if envs[k].0 == wanted {
            return Some(envs[k].1.clone());
        }
        k = k + 1;
    }
    None
}

/// The decimal number that `s` spells, if it is one and fits in 64 bits.
pub fn parse_u64(s: &str) -> (r: Option<u64>)
    ensures
        r is Some <==> is_decimal(s@) && decimal_value(s@) <= u64::MAX,
        r matches Some(v) ==> v == decimal_value(s@),
{
    let n = s.unicode_len();
    if n == 0 {
        return None;
    }
    let mut value: u64 = 0;
    let mut i: usize = 0;
    while i < n
        invariant
            n == s@.len(),
            i <= n,
            forall|j: int| 0 <= j < i ==> '0' <= #[trigger] s@[j] <= '9',
            value == decimal_value(s@.take(i as int)),
        decreases n - i,
    {
        let c = s.get_char(i);
        assert(s@.take(i + 1).drop_last() =~= s@.take(i as int));
        if c < '0' || c > '9' {
            assert(!is_decimal(s@));
            return None;
        }
        let d = (c as u32 - '0' as u32) as u64;
        if value > (u64::MAX - d) / 10 {
            proof {
                lemma_decimal_prefix_bound(s@, i as int + 1);
            }
            assert(decimal_value(s@.take(i + 1)) > u64::MAX) by (nonlinear_arith)
                requires
                    value > (u64::MAX - d) / 10,
                    decimal_value(s@.take(i + 1)) == value * 10 + d,
            ;
            return None;
        }
        value = value * 10 + d;
        i = i + 1;
    }
    assert(s@.take(n as int) =~= s@);
    Some(value)
}

proof fn lemma_decimal_prefix_bound(s: Seq<char>, i: int)
    requires
        0 <= i <= s.len(),
        forall|j: int| 0 <= j < i ==> '0' <= #[trigger] s[j] <= '9',
        forall|j: int| 0 <= j < s.len() ==> '0' <= #[trigger] s[j] <= '9' || !is_decimal(s),
    ensures
        is_decimal(s) ==> decimal_value(s.take(i)) <= decimal_value(s),
    decreases s.len() - i,
{
    if i < s.len() && is_decimal(s) {
        lemma_decimal_prefix_bound(s, i + 1);
        assert(s.take(i + 1).drop_last() =~= s.take(i));
        assert('0' <= s[i] <= '9');
    } else if is_decimal(s) {
        assert(s.take(i) =~= s);
    }
}

fn number_from(envs: &Vec<(String, String)>, key: &str, max: u64, default: u64) -> (r: u64)
    requires
        default <= max,
    ensures
        r == number_setting(envs@, key@, max as nat, default as nat),
{
    match lookup_setting(envs, key) {
        Some(v) => match parse_u64(v.as_str()) {
            Some(x) => if x <= max {
                x
            } else {
                default
            },
            None => default,
        },
        None => default,
    }
}

fn text_from(envs: &Vec<(String, String)>, key: &str, default: &str) -> (r: String)
    ensures
        r@ == text_setting(envs@, key@, default@),
{
    match lookup_setting(envs, key) {
        Some(v) => v,
        None => default.to_owned(),
    }
}

/// Where the stores live.
pub struct DatabaseConstants {
    pub blockchain_db_path: String,
    pub wallets_db_path: String,
    pub blocks_bucket: String,
    pub wallets_bucket: String,
}

impl DatabaseConstants {
    pub fn new(envs: &Vec<(String, String)>) -> (r: DatabaseConstants)
        ensures
            r.blockchain_db_path@ == text_setting(envs@, "BLOCKCHAIN_DB_PATH"@, "blockchain"@),
            r.wallets_db_path@ == text_setting(envs@, "WALLETS_DB_PATH"@, "wallets"@),
            r.blocks_bucket@ == text_setting(envs@, "BLOCKS_BUCKET"@, "blocks"@),
            r.wallets_bucket@ == text_setting(envs@, "WALLETS_BUCKET"@, "wallets"@),
    {
        DatabaseConstants {
            blockchain_db_path: text_from(envs, "BLOCKCHAIN_DB_PATH", "blockchain"),
            wallets_db_path: text_from(envs, "WALLETS_DB_PATH", "wallets"),
            blocks_bucket: text_from(envs, "BLOCKS_BUCKET", "blocks"),
            wallets_bucket: text_from(envs, "WALLETS_BUCKET", "wallets"),
        }
    }
}

/// Settings of the ledger itself.
pub struct BlockchainConstants {
    pub genesis_block_data: String,
    pub coinbase_reward: u64,
    pub mining_difficulty: usize,
}

impl BlockchainConstants {
    /// Reads the settings; a reward that is not a 64-bit decimal number is
    /// 100, a difficulty that is not a decimal number below 256 is 0.
    pub fn new(envs: &Vec<(String, String)>) -> (r: BlockchainConstants)
        ensures
            r.genesis_block_data@ == text_setting(envs@, "GENESIS_BLOCK_DATA"@, "Idk what to put here"@),
            r.coinbase_reward == number_setting(envs@, "COINBASE_REWARD"@, u64::MAX as nat, 100),
            r.mining_difficulty == number_setting(envs@, "MINING_DIFFICULTY"@, 255, 0),
            r.mining_difficulty < 256,
    {
        let difficulty = number_from(envs, "MINING_DIFFICULTY", 255, 0);
        BlockchainConstants {
            genesis_block_data: text_from(envs, "GENESIS_BLOCK_DATA", "Idk what to put here"),
            coinbase_reward: number_from(envs, "COINBASE_REWARD", u64::MAX, 100),
            mining_difficulty: difficulty as usize,
        }
    }
}

/// How addresses are built.
pub struct AddressConstants {
    pub version: u8,
    pub checksum_length: usize,
}

impl AddressConstants {
    /// Reads the settings; a version that is not a decimal byte is 0, a
    /// checksum length that is not a decimal number of at most 64 is 4.
    pub fn new(envs: &Vec<(String, String)>) -> (r: AddressConstants)
        ensures
            r.version == number_setting(envs@, "ADDRESS_VERSION"@, 255, 0),
            r.checksum_length == number_setting(envs@, "ADDRESS_CHECKSUM_LENGTH"@, 64, 4),
            r.checksum_length <= 64,
    {
        let version = number_from(envs, "ADDRESS_VERSION", 255, 0);
        let length = number_from(envs, "ADDRESS_CHECKSUM_LENGTH", 64, 4);
        AddressConstants { version: version as u8, checksum_length: length as usize }
    }
}

/// All settings, read once at start.
pub struct Constants {
    pub database_constants: DatabaseConstants,
    pub blockchain_constants: BlockchainConstants,
    pub address_constants: AddressConstants,
}

impl Constants {
    pub fn new(envs: &Vec<(String, String)>) -> (r: Constants)
        ensures
            r.database_constants.blockchain_db_path@ == text_setting(envs@, "BLOCKCHAIN_DB_PATH"@, "blockchain"@),
            r.database_constants.wallets_db_path@ == text_setting(envs@, "WALLETS_DB_PATH"@, "wallets"@),
            r.database_constants.blocks_bucket@ == text_setting(envs@, "BLOCKS_BUCKET"@, "blocks"@),
            r.database_constants.wallets_bucket@ == text_setting(envs@, "WALLETS_BUCKET"@, "wallets"@),
            r.blockchain_constants.genesis_block_data@ == text_setting(
                envs@,
                "GENESIS_BLOCK_DATA"@,
                "Idk what to put here"@,
            ),
            r.blockchain_constants.coinbase_reward == number_setting(
                envs@,
                "COINBASE_REWARD"@,
                u64::MAX as nat,
                100,
            ),
            r.blockchain_constants.mining_difficulty == number_setting(envs@, "MINING_DIFFICULTY"@, 255, 0),
            r.blockchain_constants.mining_difficulty < 256,
            r.address_constants.version == number_setting(envs@, "ADDRESS_VERSION"@, 255, 0),
            r.address_constants.checksum_length == number_setting(envs@, "ADDRESS_CHECKSUM_LENGTH"@, 64, 4),
            r.address_constants.checksum_length <= 64,
    {
        Constants {
            database_constants: DatabaseConstants::new(envs),
            blockchain_constants: BlockchainConstants::new(envs),
            address_constants: AddressConstants::new(envs),
        }
    }
}

} // verus!
