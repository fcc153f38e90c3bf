//! The page of the dashboard.

use vstd::prelude::*;

verus! {

/// Single-page UI that fetches /api/books every second and renders a styled dashboard.
pub const ORDERBOOK_PAGE: &'static str = r#"<!DOCTYPE html>
<html lang="en">
<head>
  <meta charset="UTF-8" />
  <title>Polymarket Order Books</title>
  <meta name="viewport" content="width=device-width, initial-scale=1" />
  <style>
    :root {
      --bg: #050816;
      --bg-elevated: rgba(15, 23, 42, 0.96);
      --accent: #22d3ee;
      --accent-soft: rgba(34, 211, 238, 0.18);
      --danger: #f97373;
      --text-main: #e5e7eb;
      --text-muted: #9ca3af;
      --border-subtle: rgba(148, 163, 184, 0.35);
      --shadow-soft: 0 18px 45px rgba(0, 0, 0, 0.55);
      --radius-card: 18px;
      --radius-pill: 999px;
    }

    * {
      box-sizing: border-box;
      margin: 0;
      padding: 0;
    }

    body {
      min-height: 100vh;
      font-family: system-ui, -apple-system, BlinkMacSystemFont, "SF Pro Text",
        "Segoe UI", sans-serif;
      color: var(--text-main);
      background:
        radial-gradient(circle at top left, #1d4ed8 0, transparent 55%),
        radial-gradient(circle at bottom right, #06b6d4 0, transparent 55%),
        radial-gradient(circle at center, #0f172a 0, #020617 55%);
      background-attachment: fixed;
      display: flex;
      align-items: stretch;
      justify-content: center;
      padding: 32px 16px;
    }

    .shell {
      width: 100%;
      max-width: 1200px;
      background: linear-gradient(135deg, rgba(15,23,42,0.98), rgba(8,17,40,0.98));
      border-radius: 28px;
      border: 1px solid rgba(148, 163, 184, 0.35);
      box-shadow: var(--shadow-soft);
      padding: 20px 22px 24px;
      backdrop-filter: blur(26px) saturate(1.4);
      position: relative;
      overflow: hidden;
    }

    .shell::before {
      content: "";
      position: absolute;
      inset: -120px;
      background:
        radial-gradient(circle at 10% -10%, rgba(59,130,246,0.22), transparent 55%),
        radial-gradient(circle at 110% 110%, rgba(56,189,248,0.25), transparent 55%);
      opacity: 0.7;
      mix-blend-mode: screen;
      pointer-events: none;
    }

    .chrome {
      position: relative;
      display: flex;
      align-items: center;
      justify-content: space-between;
      gap: 18px;
      margin-bottom: 18px;
    }

    .dots {
      display: flex;
      gap: 8px;
      align-items: center;
    }

    .dot {
      width: 11px;
      height: 11px;
      border-radius: 999px;
      background: radial-gradient(circle at 30% 25%, rgba(255,255,255,0.9), transparent 55%),
                  #f97373;
      box-shadow: 0 0 0 1px rgba(0,0,0,0.45), 0 0 18px rgba(248, 113, 113, 0.35);
    }

    .dot:nth-child(2) {
      background: radial-gradient(circle at 30% 25%, rgba(255,255,255,0.9), transparent 55%),
                  #facc15;
      box-shadow: 0 0 0 1px rgba(0,0,0,0.45), 0 0 18px rgba(250,204,21,0.35);
    }

    .dot:nth-child(3) {
      background: radial-gradient(circle at 30% 25%, rgba(255,255,255,0.9), transparent 55%),
                  #4ade80;
      box-shadow: 0 0 0 1px rgba(0,0,0,0.45), 0 0 18px rgba(74,222,128,0.35);
    }

    .title {
      position: relative;
      display: flex;
      flex-direction: column;
      gap: 4px;
    }

    .title-main {
      font-size: 18px;
      letter-spacing: 0.08em;
      text-transform: uppercase;
      font-weight: 600;
      color: #e5e7eb;
      display: inline-flex;
      align-items: baseline;
      gap: 8px;
    }

    .title-main span {
      font-size: 11px;
      font-weight: 500;
      text-transform: uppercase;
      letter-spacing: 0.16em;
      color: var(--text-muted);
    }

    .title-sub {
      font-size: 12px;
      color: var(--text-muted);
    }

    .pill {
      position: relative;
      padding: 4px 12px;
      border-radius: var(--radius-pill);
      border: 1px solid rgba(148, 163, 184, 0.7);
      font-size: 11px;
      color: var(--text-muted);
      display: inline-flex;
      align-items: center;
      gap: 6px;
      background: radial-gradient(circle at 0 0, rgba(34,211,238,0.18), transparent 65%);
    }

    .pill-dot {
      width: 7px;
      height: 7px;
      border-radius: 999px;
      background: radial-gradient(circle at 30% 20%, #bbf7d0, #22c55e);
      box-shadow: 0 0 12px rgba(22,163,74,0.85);
    }

    .grid {
      position: relative;
      margin-top: 6px;
      display: grid;
      grid-template-columns: repeat(auto-fit, minmax(260px, 1fr));
      gap: 18px;
      z-index: 1;
    }

    .card {
      border-radius: var(--radius-card);
      border: 1px solid var(--border-subtle);
      background: radial-gradient(circle at top left, rgba(15,23,42,0.9), rgba(17,24,39,0.97));
      padding: 16px 16px 14px;
      box-shadow: 0 16px 40px rgba(0,0,0,0.55);
      position: relative;
      overflow: hidden;
    }

    .card::before {
      content: "";
      position: absolute;
      inset: -40%;
      background:
        radial-gradient(circle at top right, rgba(34,211,238,0.18), transparent 55%),
        radial-gradient(circle at bottom left, rgba(59,130,246,0.16), transparent 60%);
      opacity: 0.65;
      mix-blend-mode: soft-light;
      pointer-events: none;
    }

    .card-header {
      position: relative;
      display: flex;
      align-items: center;
      justify-content: space-between;
      margin-bottom: 12px;
    }

    .card-title {
      font-size: 14px;
      font-weight: 600;
      letter-spacing: 0.08em;
      text-transform: uppercase;
      color: #e5e7eb;
    }

    .card-subtitle {
      font-size: 11px;
      color: var(--text-muted);
    }

    .badge {
      font-size: 10px;
      text-transform: uppercase;
      letter-spacing: 0.16em;
      border-radius: var(--radius-pill);
      padding: 3px 10px;
      background: rgba(15, 23, 42, 0.82);
      border: 1px solid rgba(148, 163, 184, 0.65);
      color: var(--text-muted);
    }

    .spread-row {
      position: relative;
      display: flex;
      align-items: baseline;
      justify-content: space-between;
      margin-bottom: 8px;
      font-size: 11px;
      color: var(--text-muted);
      gap: 8px;
    }

    .spread-row strong {
      font-size: 13px;
      color: var(--accent);
    }

    .spread-label {
      font-size: 10px;
      letter-spacing: 0.12em;
      text-transform: uppercase;
      color: var(--text-muted);
    }

    .table {
      position: relative;
      width: 100%;
      border-collapse: collapse;
      font-size: 11px;
      margin-top: 4px;
    }

    .table thead {
      color: var(--text-muted);
    }

    .table th {
      font-weight: 500;
      text-transform: uppercase;
      letter-spacing: 0.12em;
      font-size: 10px;
      padding-bottom: 5px;
    }

    .table th,
    .table td {
      padding-right: 8px;
      white-space: nowrap;
    }

    .table tbody tr {
      transition: background 180ms ease-out, transform 180ms ease-out;
    }

    .table tbody tr:nth-child(even) {
      background: rgba(15, 23, 42, 0.7);
    }

    .table tbody tr:hover {
      background: rgba(30, 64, 175, 0.35);
      transform: translateY(-1px);
    }

    .bid {
      color: #4ade80;
    }

    .ask {
      color: var(--danger);
    }

    .muted {
      color: var(--text-muted);
    }

    .status-line {
      position: relative;
      margin-top: 18px;
      display: flex;
      justify-content: space-between;
      align-items: center;
      font-size: 11px;
      color: var(--text-muted);
      gap: 18px;
    }

    .status-line strong {
      color: var(--accent);
      font-weight: 500;
    }

    .status-ghost {
      opacity: 0.78;
    }

    @media (max-width: 640px) {
      .shell {
        padding: 16px 14px 18px;
        border-radius: 22px;
      }
      .title-main {
        font-size: 15px;
      }
      .grid {
        gap: 14px;
      }
    }
  </style>
</head>
<body>
  <main class="shell">
    <header class="chrome">
      <div class="dots">
        <div class="dot"></div>
        <div class="dot"></div>
        <div class="dot"></div>
      </div>
      <div class="title">
        <div class="title-main">
          Polymarket Order Books
          <span>Live Top&nbsp;5 Levels</span>
        </div>
        <div class="title-sub">
          Single-threaded feed · Zero mutexes · WebSocket → HTTP fan-out
        </div>
      </div>
      <div class="pill">
        <span class="pill-dot"></span>
        <span id="connection-label">Feed: live</span>
      </div>
    </header>

    <section id="grid" class="grid">
      <!-- Cards injected here -->
    </section>

    <footer class="status-line">
      <div class="status-ghost">
        Last update: <strong id="last-update">–</strong>
      </div>
      <div class="status-ghost">
        Source: WebSocket snapshot → HTTP `/api/books`
      </div>
    </footer>
  </main>

  <script>
    const grid = document.getElementById("grid");
    const lastUpdateEl = document.getElementById("last-update");

    function formatTime(ts) {
      const d = new Date(ts);
      return d.toLocaleTimeString(undefined, {
        hour12: false,
        hour: "2-digit",
        minute: "2-digit",
        second: "2-digit",
      });
    }

    function render(snapshot) {
      grid.innerHTML = "";
      if (!snapshot || !snapshot.assets || snapshot.assets.length === 0) {
        const empty = document.createElement("div");
        empty.className = "card";
        empty.innerHTML = "<div class='card-header'><div><div class='card-title'>Waiting for books…</div><div class='card-subtitle'>No snapshots published yet.</div></div></div>";
        grid.appendChild(empty);
        return;
      }

      snapshot.assets.forEach((asset) => {
        const card = document.createElement("article");
        card.className = "card";

        const spread = asset.spread || "–";
        const bestBid = asset.best_bid || "–";
        const bestAsk = asset.best_ask || "–";

        card.innerHTML = `
          <div class="card-header">
            <div>
              <div class="card-title">${asset.label}</div>
              <div class="card-subtitle">${asset.asset_id}</div>
            </div>
            <div class="badge">Top 5 Levels</div>
          </div>
          <div class="spread-row">
            <div>
              <div class="spread-label">Spread</div>
              <strong>${spread}</strong>
            </div>
            <div class="muted">
              Bid&nbsp;<span class="bid">${bestBid}</span>
              &nbsp;&middot;&nbsp;
              Ask&nbsp;<span class="ask">${bestAsk}</span>
            </div>
          </div>
          <table class="table">
            <thead>
              <tr>
                <th colspan="3" style="text-align:left">Bids</th>
                <th></th>
                <th colspan="3" style="text-align:left">Asks</th>
              </tr>
              <tr>
                <th class="muted">Price</th>
                <th class="muted">Size</th>
                <th class="muted">Cumul.</th>
                <th></th>
                <th class="muted">Price</th>
                <th class="muted">Size</th>
                <th class="muted">Cumul.</th>
              </tr>
            </thead>
            <tbody>
              ${Array.from({ length: Math.max(asset.bids.length, asset.asks.length, 5) })
                .map((_, i) => {
                  const bid = asset.bids[i];
                  const ask = asset.asks[i];
                  return `
                    <tr>
                      <td class="bid">${bid ? bid.price : ""}</td>
                      <td class="muted">${bid ? bid.size : ""}</td>
                      <td class="muted">${bid ? bid.cumulative : ""}</td>
                      <td></td>
                      <td class="ask">${ask ? ask.price : ""}</td>
                      <td class="muted">${ask ? ask.size : ""}</td>
                      <td class="muted">${ask ? ask.cumulative : ""}</td>
                    </tr>
                  `;
                })
                .join("")}
            </tbody>
          </table>
        `;

        grid.appendChild(card);
      });

      lastUpdateEl.textContent = formatTime(Date.now());
    }

    async function poll() {
      try {
        const res = await fetch("/api/books", { cache: "no-store" });
        if (!res.ok) throw new Error("HTTP " + res.status);
        const data = await res.json();
        render(data);
      } catch (err) {
        console.error("Failed to fetch books:", err);
      }
    }

    poll();
    setInterval(poll, 1000);
  </script>
</body>
</html>
"#;

} // verus!
