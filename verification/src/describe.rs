use vstd::prelude::*;

use crate::project::{extract_project, opt_text, project_of};
use crate::text::{
    ascii_lower, char_vec, decimal, decimal_string, has_substring, is_ascii_text, lowercase, owned,
    str_contains, text_is, to_lowercase,
};

verus! {

broadcast use vstd::string::group_string_axioms;

/// `base` followed by the project and a closing parenthesis, or `fallback`
/// when there is no project.
pub open spec fn with_project(base: Seq<char>, project: Option<Seq<char>>, fallback: Seq<char>) -> Seq<char> {
    match project {
        Some(p) => base + p + ")"@,
        None => fallback,
    }
}

/// What a Docker process on `port` is described as.
pub open spec fn docker_description(port: u16) -> Seq<char> {
    if port == 5432 {
        "PostgreSQL (Docker)"@
    } else if port == 3306 {
        "MySQL (Docker)"@
    } else if port == 6379 {
        "Redis (Docker)"@
    } else if port == 27017 {
        "MongoDB (Docker)"@
    } else {
        "Docker service"@
    }
}

/// What a `node` process is described as, from its lower-case command line.
pub open spec fn node_description(cmd: Seq<char>) -> Seq<char> {
    if has_substring(cmd, "vite"@) {
        with_project("Vite dev server ("@, project_of(cmd), "Vite dev server"@)
    } else if has_substring(cmd, "next"@) {
        with_project("Next.js ("@, project_of(cmd), "Next.js dev server"@)
    } else if has_substring(cmd, "nx serve"@) || has_substring(cmd, "nx run"@) {
        with_project("Nx dev server ("@, project_of(cmd), "Nx dev server"@)
    } else if has_substring(cmd, "webpack"@) {
        "Webpack dev server"@
    } else if has_substring(cmd, "express"@) || has_substring(cmd, "fastify"@) {
        with_project("Node API ("@, project_of(cmd), "Node.js API server"@)
    } else if has_substring(cmd, "react-scripts"@) {
        "Create React App"@
    } else {
        with_project("Node.js ("@, project_of(cmd), "Node.js app"@)
    }
}

/// What a Python process is described as, from its lower-case command line.
pub open spec fn python_description(cmd: Seq<char>) -> Seq<char> {
    if has_substring(cmd, "uvicorn"@) {
        "FastAPI/ASGI server"@
    } else if has_substring(cmd, "flask"@) {
        "Flask dev server"@
    } else if has_substring(cmd, "django"@) {
        "Django dev server"@
    } else {
        with_project("Python app ("@, project_of(cmd), "Python app"@)
    }
}

/// What a process on `port` is described as when nothing else tells.
pub open spec fn port_description(port: u16) -> Seq<char> {
    if 3000 <= port <= 3003 {
        "Frontend dev server"@
    } else if port == 4200 {
        "Nx frontend"@
    } else if 5000 <= port <= 5001 {
        "Backend API"@
    } else if port == 5173 {
        "Vite dev server"@
    } else if port == 8000 || port == 8080 || port == 8081 {
        "HTTP server"@
    } else if port == 5432 {
        "PostgreSQL"@
    } else if port == 3306 {
        "MySQL"@
    } else if port == 6379 {
        "Redis"@
    } else if port == 27017 {
        "MongoDB"@
    } else if port == 9229 {
        "Node.js debugger"@
    } else {
        "Service on port "@ + decimal(port as nat)
    }
}

/// What a process listening on `port` is described as, from its lower-case
/// process name and lower-case command line.
pub open spec fn description_of(port: u16, name: Seq<char>, cmd: Seq<char>) -> Seq<char> {
    if has_substring(name, "controlce"@) || has_substring(name, "controlcenter"@) {
        "macOS Control Center"@
    } else if has_substring(name, "docker"@) || has_substring(name, "com.docke"@) {
        docker_description(port)
    } else if name == "node"@ {
        node_description(cmd)
    } else if has_substring(name, "python"@) {
        python_description(cmd)
    } else if has_substring(name, "postgres"@) {
        "PostgreSQL"@
    } else if has_substring(name, "mysql"@) {
        "MySQL"@
    } else if has_substring(name, "redis"@) {
        "Redis"@
    } else if has_substring(name, "mongo"@) {
        "MongoDB"@
    } else {
        port_description(port)
    }
}

/// `base`, the project and `)`; or `fallback` when there is no project.
fn labeled(base: &str, project: Option<String>, fallback: &str) -> (r: String)
    ensures
        r@ == with_project(base@, opt_text(project), fallback@),
{
    match project {
        Some(p) => {
            let mut s = owned(base);
            s.append(p.as_str());
            s.append(")");
            s
        },
        None => owned(fallback),
    }
}

fn docker_label(port: u16) -> (r: String)
    ensures
        r@ == docker_description(port),
{
    if port == 5432 {
        owned("PostgreSQL (Docker)")
    } else if port == 3306 {
        owned("MySQL (Docker)")
    } else if port == 6379 {
        owned("Redis (Docker)")
    } else if port == 27017 {
        owned("MongoDB (Docker)")
    } else {
        owned("Docker service")
    }
}

fn node_label(cmd: &str, cv: &Vec<char>) -> (r: String)
    requires
        cv@ == cmd@,
    ensures
        r@ == node_description(cmd@),
{
    if str_contains(cv, "vite") {
        labeled("Vite dev server (", extract_project(cmd), "Vite dev server")
    } else if str_contains(cv, "next") {
        labeled("Next.js (", extract_project(cmd), "Next.js dev server")
    } else if str_contains(cv, "nx serve") || str_contains(cv, "nx run") {
        labeled("Nx dev server (", extract_project(cmd), "Nx dev server")
    } else if str_contains(cv, "webpack") {
        owned("Webpack dev server")
    } else if str_contains(cv, "express") || str_contains(cv, "fastify") {
        labeled("Node API (", extract_project(cmd), "Node.js API server")
    } else if str_contains(cv, "react-scripts") {
        owned("Create React App")
    } else {
        labeled("Node.js (", extract_project(cmd), "Node.js app")
    }
}

fn python_label(cmd: &str, cv: &Vec<char>) -> (r: String)
    requires
        cv@ == cmd@,
    ensures
        r@ == python_description(cmd@),
{
    if str_contains(cv, "uvicorn") {
        owned("FastAPI/ASGI server")
    } else if str_contains(cv, "flask") {
        owned("Flask dev server")
    } else if str_contains(cv, "django") {
        owned("Django dev server")
    } else {
        labeled("Python app (", extract_project(cmd), "Python app")
    }
}

/// What a process on `port` is described as when its name and command line
/// tell nothing.
pub fn port_label(port: u16) -> (r: String)
    ensures
        r@ == port_description(port),
{
    if 3000 <= port && port <= 3003 {
        owned("Frontend dev server")
    } else if port == 4200 {
        owned("Nx frontend")
    } else if 5000 <= port && port <= 5001 {
        owned("Backend API")
    } else if port == 5173 {
        owned("Vite dev server")
    } else if port == 8000 || port == 8080 || port == 8081 {
        owned("HTTP server")
    } else if port == 5432 {
        owned("PostgreSQL")
    } else if port == 3306 {
        owned("MySQL")
    } else if port == 6379 {
        owned("Redis")
    } else if port == 27017 {
        owned("MongoDB")
    } else if port == 9229 {
        owned("Node.js debugger")
    } else {
        let mut s = owned("Service on port ");
        let d = decimal_string(port as u64);
        s.append(d.as_str());
        s
    }
}

/// The description of a process on `port` from its process name and command
/// line, both already in lower case.
pub fn describe_lowered(port: u16, name: &str, cmd: &str) -> (r: String)
    ensures
        r@ == description_of(port, name@, cmd@),
{
    let nv = char_vec(name);
    let cv = char_vec(cmd);
    if str_contains(&nv, "controlce") || str_contains(&nv, "controlcenter") {
        owned("macOS Control Center")
    } else if str_contains(&nv, "docker") || str_contains(&nv, "com.docke") {
        docker_label(port)
    } else if text_is(&nv, "node") {
        node_label(cmd, &cv)
    } else if str_contains(&nv, "python") {
        python_label(cmd, &cv)
    } else if str_contains(&nv, "postgres") {
        owned("PostgreSQL")
    } else if str_contains(&nv, "mysql") {
        owned("MySQL")
    } else if str_contains(&nv, "redis") {
        owned("Redis")
    } else if str_contains(&nv, "mongo") {
        owned("MongoDB")
    } else {
        port_label(port)
    }
}

/// The description of a process listening on `port`, from its process name and
/// its full command line; both are compared in lower case.
pub fn infer_description(port: u16, process_name: &str, command: &str) -> (r: String)
    ensures
        r@ == description_of(port, lowercase(process_name@), lowercase(command@)),
        is_ascii_text(process_name@) && is_ascii_text(command@) ==> r@ == description_of(
            port,
            ascii_lower(process_name@),
            ascii_lower(command@),
        ),
{
    let cmd_lower = to_lowercase(command);
    let name_lower = to_lowercase(process_name);
    describe_lowered(port, name_lower.as_str(), cmd_lower.as_str())
}

/// The emoji shown for a service, from its lower-case description.
pub open spec fn emoji_of(d: Seq<char>) -> Seq<char> {
    if has_substring(d, "vite"@) || has_substring(d, "react"@) || has_substring(d, "next"@) {
        "\u{26a1}"@
    } else if has_substring(d, "nx"@) || has_substring(d, "angular"@) {
        "\u{1f537}"@
    } else if has_substring(d, "node"@) || has_substring(d, "api"@) || has_substring(d, "express"@) {
        "\u{1f7e2}"@
    } else if has_substring(d, "python"@) || has_substring(d, "flask"@) || has_substring(d, "django"@)
        || has_substring(d, "fastapi"@) {
        "\u{1f40d}"@
    } else if has_substring(d, "postgres"@) {
        "\u{1f418}"@
    } else if has_substring(d, "mysql"@) {
        "\u{1f42c}"@
    } else if has_substring(d, "redis"@) {
        "\u{1f534}"@
    } else if has_substring(d, "mongo"@) {
        "\u{1f343}"@
    } else if has_substring(d, "docker"@) {
        "\u{1f433}"@
    } else if has_substring(d, "macos"@) || has_substring(d, "control"@) {
        "\u{1f34e}"@
    } else if has_substring(d, "debug"@) {
        "\u{1f41b}"@
    } else {
        "\u{1f539}"@
    }
}

/// The emoji for a service whose description is already in lower case.
pub fn emoji_for_lowered(d: &str) -> (r: &'static str)
    ensures
        r@ == emoji_of(d@),
{
    let v = char_vec(d);
    if str_contains(&v, "vite") || str_contains(&v, "react") || str_contains(&v, "next") {
        "\u{26a1}"
    } else if str_contains(&v, "nx") || str_contains(&v, "angular") {
        "\u{1f537}"
    } else if str_contains(&v, "node") || str_contains(&v, "api") || str_contains(&v, "express") {
        "\u{1f7e2}"
    } else if str_contains(&v, "python") || str_contains(&v, "flask") || str_contains(&v, "django")
        || str_contains(&v, "fastapi") {
        "\u{1f40d}"
    } else if str_contains(&v, "postgres") {
        "\u{1f418}"
    } else if str_contains(&v, "mysql") {
        "\u{1f42c}"
    } else if str_contains(&v, "redis") {
        "\u{1f534}"
    } else if str_contains(&v, "mongo") {
        "\u{1f343}"
    } else if str_contains(&v, "docker") {
        "\u{1f433}"
    } else if str_contains(&v, "macos") || str_contains(&v, "control") {
        "\u{1f34e}"
    } else if str_contains(&v, "debug") {
        "\u{1f41b}"
    } else {
        "\u{1f539}"
    }
}

/// The emoji shown for a service; its description is compared in lower case.
pub fn get_service_emoji(description: &str) -> (r: &'static str)
    ensures
        r@ == emoji_of(lowercase(description@)),
        is_ascii_text(description@) ==> r@ == emoji_of(ascii_lower(description@)),
{
    let lower = to_lowercase(description);
    emoji_for_lowered(lower.as_str())
}

/// What kind of service a monitored port is listed as.
pub open spec fn port_service(port: u16) -> Seq<char> {
    if 3000 <= port <= 3003 {
        "React/Next.js/Vite dev server"@
    } else if port == 4200 {
        "Nx frontend (Angular/React/Vue)"@
    } else if 5000 <= port <= 5001 {
        "Flask/general backend"@
    } else if port == 5173 {
        "Vite dev server"@
    } else if port == 8000 || 8080 <= port <= 8081 {
        "Python/Node backend"@
    } else if port == 5432 {
        "PostgreSQL"@
    } else if port == 3306 {
        "MySQL"@
    } else if port == 6379 {
        "Redis"@
    } else if port == 27017 {
        "MongoDB"@
    } else if port == 9229 {
        "Node.js debugger"@
    } else {
        "Custom port"@
    }
}

/// The kind of service a monitored port is listed as.
pub fn port_service_label(port: u16) -> (r: &'static str)
    ensures
        r@ == port_service(port),
{
    if 3000 <= port && port <= 3003 {
        "React/Next.js/Vite dev server"
    } else if port == 4200 {
        "Nx frontend (Angular/React/Vue)"
    } else if 5000 <= port && port <= 5001 {
        "Flask/general backend"
    } else if port == 5173 {
        "Vite dev server"
    } else if port == 8000 || (8080 <= port && port <= 8081) {
        "Python/Node backend"
    } else if port == 5432 {
        "PostgreSQL"
    } else if port == 3306 {
        "MySQL"
    } else if port == 6379 {
        "Redis"
    } else if port == 27017 {
        "MongoDB"
    } else if port == 9229 {
        "Node.js debugger"
    } else {
        "Custom port"
    }
}

} // verus!
