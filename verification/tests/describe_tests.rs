use devport::describe::{
    describe_lowered, emoji_for_lowered, get_service_emoji, infer_description, port_label,
    port_service_label,
};
use devport::project::extract_project;

#[test]
fn project_from_node_modules() {
    assert_eq!(
        extract_project("/users/me/code/shop/node_modules/.bin/vite"),
        Some("shop".to_string())
    );
}

#[test]
fn node_modules_under_bin_or_src_is_skipped() {
    assert_eq!(extract_project("/x/src/node_modules/a"), None);
    assert_eq!(extract_project("node_modules/a"), None);
}

#[test]
fn project_from_path_markers() {
    assert_eq!(extract_project("python /home/u/dev/api/src/main.py"), Some("api".to_string()));
    assert_eq!(
        extract_project("node /home/u/projects/web/app/server.js"),
        Some("app".to_string())
    );
    assert_eq!(extract_project("node /home/u/projects/server.js"), None);
    assert_eq!(extract_project("/sandbox/a/b /work/c/d"), Some("c".to_string()));
    assert_eq!(extract_project("/sandbox/a/b /work/"), Some("work".to_string()));
    assert_eq!(extract_project("ls"), None);
}

#[test]
fn upper_case_users_marker_only_matches_as_written() {
    assert_eq!(extract_project("/Users/bob/site/x"), Some("site".to_string()));
    assert_eq!(extract_project("/users/bob/x"), None);
}

#[test]
fn vite_with_project() {
    assert_eq!(
        infer_description(5173, "node", "node /Users/me/Projects/Shop/node_modules/vite/bin/vite.js"),
        "Vite dev server (shop)"
    );
}

#[test]
fn frameworks_without_project() {
    assert_eq!(infer_description(3000, "node", "next dev"), "Next.js dev server");
    assert_eq!(infer_description(4200, "node", "nx serve web"), "Nx dev server");
    assert_eq!(infer_description(8080, "node", "webpack serve"), "Webpack dev server");
    assert_eq!(infer_description(3001, "node", "node express-app.js"), "Node.js API server");
    assert_eq!(infer_description(3000, "node", "react-scripts start"), "Create React App");
    assert_eq!(infer_description(3000, "node", "node index.js"), "Node.js app");
    assert_eq!(infer_description(8000, "Python3.11", "python -m uvicorn main:app"), "FastAPI/ASGI server");
    assert_eq!(infer_description(5000, "python", "flask run"), "Flask dev server");
    assert_eq!(infer_description(8000, "python", "manage.py runserver django"), "Django dev server");
    assert_eq!(infer_description(8000, "python", "python app.py"), "Python app");
}

#[test]
fn frameworks_with_project() {
    assert_eq!(
        infer_description(3000, "node", "node /work/blog/next/dist/server.js"),
        "Next.js (dist)"
    );
    assert_eq!(
        infer_description(3000, "node", "node /dev/api/fastify/main.js"),
        "Node API (fastify)"
    );
    assert_eq!(infer_description(3000, "node", "node /dev/site/x.js"), "Node.js (site)");
    assert_eq!(infer_description(8000, "python", "python /dev/tool/run.py"), "Python app (tool)");
}

#[test]
fn system_and_database_processes() {
    assert_eq!(infer_description(7000, "ControlCe", "x"), "macOS Control Center");
    assert_eq!(infer_description(5432, "com.docke", "x"), "PostgreSQL (Docker)");
    assert_eq!(infer_description(3306, "docker", "x"), "MySQL (Docker)");
    assert_eq!(infer_description(6379, "docker", "x"), "Redis (Docker)");
    assert_eq!(infer_description(27017, "docker", "x"), "MongoDB (Docker)");
    assert_eq!(infer_description(1234, "docker", "x"), "Docker service");
    assert_eq!(infer_description(1, "postgres", ""), "PostgreSQL");
    assert_eq!(infer_description(1, "mysqld", ""), "MySQL");
    assert_eq!(infer_description(1, "redis-server", ""), "Redis");
    assert_eq!(infer_description(1, "mongod", ""), "MongoDB");
}

#[test]
fn port_fallbacks() {
    assert_eq!(infer_description(3002, "ruby", ""), "Frontend dev server");
    assert_eq!(infer_description(4200, "ruby", ""), "Nx frontend");
    assert_eq!(infer_description(5001, "ruby", ""), "Backend API");
    assert_eq!(infer_description(5173, "ruby", ""), "Vite dev server");
    assert_eq!(infer_description(8081, "ruby", ""), "HTTP server");
    assert_eq!(infer_description(9229, "ruby", ""), "Node.js debugger");
    assert_eq!(infer_description(9999, "ruby", ""), "Service on port 9999");
    assert_eq!(port_label(5432), "PostgreSQL");
    assert_eq!(port_label(65535), "Service on port 65535");
}

#[test]
fn description_is_computed_on_lower_case_input() {
    assert_eq!(describe_lowered(1, "NODE", ""), "Service on port 1");
    assert_eq!(describe_lowered(1, "node", ""), "Node.js app");
}

#[test]
fn emojis() {
    assert_eq!(get_service_emoji("Vite dev server (shop)"), "\u{26a1}");
    assert_eq!(get_service_emoji("Nx frontend"), "\u{1f537}");
    assert_eq!(get_service_emoji("Node.js app"), "\u{1f7e2}");
    assert_eq!(get_service_emoji("Flask dev server"), "\u{1f40d}");
    assert_eq!(get_service_emoji("PostgreSQL"), "\u{1f418}");
    assert_eq!(get_service_emoji("MySQL"), "\u{1f42c}");
    assert_eq!(get_service_emoji("Redis"), "\u{1f534}");
    assert_eq!(get_service_emoji("MongoDB"), "\u{1f343}");
    assert_eq!(get_service_emoji("Docker service"), "\u{1f433}");
    assert_eq!(get_service_emoji("macOS Control Center"), "\u{1f34e}");
    assert_eq!(get_service_emoji("Node.js debugger"), "\u{1f7e2}");
    assert_eq!(get_service_emoji("Service on port 1"), "\u{1f539}");
    assert_eq!(emoji_for_lowered("Redis"), "\u{1f539}");
}

#[test]
fn listed_services() {
    assert_eq!(port_service_label(3003), "React/Next.js/Vite dev server");
    assert_eq!(port_service_label(4200), "Nx frontend (Angular/React/Vue)");
    assert_eq!(port_service_label(5000), "Flask/general backend");
    assert_eq!(port_service_label(8081), "Python/Node backend");
    assert_eq!(port_service_label(9229), "Node.js debugger");
    assert_eq!(port_service_label(7777), "Custom port");
}

#[test]
fn letter_case_does_not_matter_for_ascii_text() {
    assert_eq!(
        infer_description(3000, "NODE", "NEXT DEV"),
        infer_description(3000, "node", "next dev")
    );
    assert_eq!(
        infer_description(8000, "Python", "/DEV/Tool/run.py"),
        "Python app (tool)"
    );
    assert_eq!(get_service_emoji("REDIS"), get_service_emoji("redis"));
}
