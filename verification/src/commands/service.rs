//! The systemd user units that serve `ctx` over a socket: their names,
//! contents and locations.
use vstd::prelude::*;
use crate::paths::{join_path, path_join};
use crate::text::{decimal, decimal_chars, from_chars, push_all, push_str, to_chars};

verus! {

pub const SOCKET_UNIT: &'static str = "ctx-mcp.socket";

pub const SERVICE_UNIT: &'static str = "ctx-mcp@.service";

pub const SOCKET_UNIT_TEXT: &'static str = "[Unit]
Description=ctx MCP server socket
Documentation=https://github.com/African-Pelagic/ctx

[Socket]
ListenStream=%t/ctx-mcp.sock
Accept=yes

[Install]
WantedBy=sockets.target
";

/// The socket unit: one `ctx serve` per connection on `%t/ctx-mcp.sock`.
pub fn socket_unit_contents() -> (r: String)
    ensures
        r@ == SOCKET_UNIT_TEXT@,
{
    String::from_str(SOCKET_UNIT_TEXT)
}

/// The per-connection service unit running `{binary} serve` in `workdir`.
pub open spec fn spec_service_unit(binary: Seq<char>, workdir: Seq<char>) -> Seq<char> {
    "[Unit]\nDescription=ctx MCP server (per-connection instance)\nDocumentation=https://github.com/African-Pelagic/ctx\n\n[Service]\nType=simple\nExecStart="@
        + binary + " serve\nWorkingDirectory="@ + workdir
        + "\nStandardInput=socket\nStandardOutput=socket\nStandardError=journal\n"@
}

pub fn service_unit_contents(binary: &str, workdir: &str) -> (r: String)
    ensures
        r@ == spec_service_unit(binary@, workdir@),
{
    let mut out: Vec<char> = Vec::new();
    push_str(
        &mut out,
        "[Unit]\nDescription=ctx MCP server (per-connection instance)\nDocumentation=https://github.com/African-Pelagic/ctx\n\n[Service]\nType=simple\nExecStart=",
    );
    push_str(&mut out, binary);
    push_str(&mut out, " serve\nWorkingDirectory=");
    push_str(&mut out, workdir);
    push_str(&mut out, "\nStandardInput=socket\nStandardOutput=socket\nStandardError=journal\n");
    from_chars(&out)
}

/// `{home}/.config/systemd/user`.
pub open spec fn spec_unit_dir(home: Seq<char>) -> Seq<char> {
    path_join(path_join(path_join(home, ".config"@), "systemd"@), "user"@)
}

pub fn unit_dir_from(home: &str) -> (r: String)
    ensures
        r@ == spec_unit_dir(home@),
{
    let a = join_path(home, ".config");
    let b = join_path(a.as_str(), "systemd");
    join_path(b.as_str(), "user")
}

/// Where the socket unit is installed.
pub fn socket_unit_path(home: &str) -> (r: String)
    ensures
        r@ == path_join(spec_unit_dir(home@), SOCKET_UNIT@),
{
    let d = unit_dir_from(home);
    join_path(d.as_str(), SOCKET_UNIT)
}

/// Where the service unit is installed.
pub fn service_unit_path(home: &str) -> (r: String)
    ensures
        r@ == path_join(spec_unit_dir(home@), SERVICE_UNIT@),
{
    let d = unit_dir_from(home);
    join_path(d.as_str(), SERVICE_UNIT)
}

/// The socket systemd opens for user `uid`: `/run/user/{uid}/ctx-mcp.sock`.
pub fn socket_runtime_path(uid: u32) -> (r: String)
    ensures
        r@ == "/run/user/"@ + decimal(uid as nat) + "/ctx-mcp.sock"@,
{
    let mut out = to_chars("/run/user/");
    let n = decimal_chars(uid as u64);
    push_all(&mut out, &n);
    push_str(&mut out, "/ctx-mcp.sock");
    proof {
        reveal_strlit("/run/user/");
    }
    from_chars(&out)
}

} // verus!
