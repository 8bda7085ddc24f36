//! The preview page's own style sheet and script.
use vstd::prelude::*;

verus! {

/// The layout of the preview page.
pub const PREVIEW_CSS: &'static str = r#"
:root {
  color-scheme: light dark;
  --bg-primary: #fbfaf7;
  --bg-secondary: #f4f1eb;
  --bg-card: #fffefa;
  --glass-bg: color-mix(in srgb, var(--bg-card) 94%, transparent);
  --glass-border: #ded9ce;
  --border-color: #ddd8cd;
  --text-primary: #22252b;
  --text-secondary: #4c5360;
  --text-muted: #7d8490;
  --accent-color: #31568c;
  --accent-light: #eaf0f8;
  --novelty-high-text: #a33b3b;
  --font-ui: "Segoe UI", "Microsoft YaHei UI", sans-serif;
  --font-ja: "Yu Gothic UI", "Yu Gothic", "Noto Sans JP", sans-serif;
  --font-zh: "Microsoft YaHei UI", "Microsoft YaHei", "Noto Sans CJK SC", sans-serif;
}
* { box-sizing: border-box; }
body { margin: 0; padding: 28px 16px 48px; background: var(--bg-primary); color: var(--text-primary); font-family: var(--font-ui); }
button { font: inherit; }
.preview-shell { width: min(680px, 100%); margin: 0 auto; }
.preview-query { display: flex; justify-content: space-between; gap: 18px; align-items: start; margin-bottom: 14px; padding: 0 3px; }
.preview-query h1 { margin: 0; color: var(--accent-color); font: 750 1.25rem/1.35 var(--font-ja); }
.preview-query-meta { display: flex; flex-wrap: wrap; gap: 5px 12px; margin-top: 4px; color: var(--text-muted); font-size: .72rem; }
.preview-timing { display: grid; justify-items: end; color: var(--text-muted); font-size: .68rem; }
.preview-timing strong { color: var(--text-secondary); font-size: .82rem; }
.tooltip-panel-mock { overflow: hidden; border: 1px solid var(--glass-border); border-radius: 15px; background: var(--glass-bg); box-shadow: 0 18px 48px rgba(35, 42, 54, .14); }
.preview-choice-bar { display: grid; grid-template-columns: auto minmax(0, 1fr); gap: 9px; align-items: start; padding: 9px 13px; border-bottom: 1px solid var(--border-color); }
.preview-choice-label { display: flex; align-items: center; gap: 5px; padding-top: 5px; color: var(--text-muted); font: 700 .68rem var(--font-ui); white-space: nowrap; }
.preview-choice-options { display: flex; gap: 6px; overflow-x: auto; padding-bottom: 2px; }
.preview-choice { flex: 0 0 auto; min-height: 28px; max-width: 230px; overflow: hidden; border: 1px solid var(--border-color); border-radius: 999px; padding: 3px 10px; background: var(--bg-card); color: var(--accent-color); text-overflow: ellipsis; white-space: nowrap; cursor: pointer; }
.preview-choice:hover, .preview-choice.active { border-color: var(--accent-color); background: var(--accent-light); }
.preview-choice.unavailable { color: var(--text-muted); opacity: .5; }
.candidate-target { grid-column: 2; color: var(--text-muted); font-size: .66rem; }
.preview-dictionary-pane, .preview-entry { display: none; }
.preview-dictionary-pane.active, .preview-entry.active { display: block; }
.occurrence-bar { background: color-mix(in srgb, var(--bg-secondary) 55%, transparent); }
.ambiguity-badge { color: #9a602c !important; background: #fff0d9 !important; border-color: #e8c18e !important; }
.preview-entry-header { position: sticky; top: 0; z-index: 2; display: grid; grid-template-columns: minmax(0, .9fr) minmax(170px, 1.1fr); gap: 13px; padding: 14px 16px 11px; border-bottom: 1px solid var(--border-color); background: color-mix(in srgb, var(--bg-card) 94%, transparent); backdrop-filter: blur(15px); }
.preview-headword-line { display: flex; flex-wrap: wrap; gap: 3px 5px; align-items: baseline; }
.preview-headword { color: var(--accent-color); font: 750 1.3rem/1.35 var(--font-ja); }
.preview-reading { color: var(--text-muted); font: .78rem var(--font-ja); }
.preview-header-tags { display: flex; flex-wrap: wrap; gap: 4px 6px; margin-top: 3px; }
.preview-tag { display: inline-flex; align-items: center; border: 1px solid var(--border-color); border-radius: 4px; padding: 0 5px; color: var(--text-secondary); font: 700 .64rem/1.55 var(--font-ui); }
.preview-tag[data-kind="entry-kind"], .preview-tag[data-kind="match"] { color: var(--accent-color); background: var(--accent-light); }
.preview-header-facts { display: grid; gap: 3px; padding-left: 12px; border-left: 1px solid var(--border-color); color: var(--text-secondary); font: .68rem/1.4 var(--font-ui); }
.preview-entry-body { padding: 14px 16px 16px; }
.preview-relations { display: flex; flex-wrap: wrap; gap: 5px; margin-top: 12px; padding-top: 9px; border-top: 1px dotted var(--border-color); }
.preview-relation { color: var(--accent-color); font-size: .72rem; }
.preview-relation small { margin-right: 4px; color: var(--text-muted); }
.preview-diagnostics, .preview-raw { margin-top: 12px; color: var(--text-muted); font-size: .7rem; }
.preview-diagnostics summary, .preview-raw summary { cursor: pointer; }
.preview-diagnostics ul { margin: 6px 0 0; padding-left: 1.3rem; }
.preview-diagnostics .warning { color: var(--novelty-high-text); }
.preview-raw pre { max-height: 320px; overflow: auto; padding: 10px; border-radius: 7px; background: var(--bg-secondary); white-space: pre-wrap; overflow-wrap: anywhere; }
.empty-state { padding: 30px 18px; color: var(--text-muted); text-align: center; }
.sense-main:has(> .sense-content:first-child) { grid-template-columns: minmax(0, 1fr); }
@media (prefers-color-scheme: dark) {
  :root { --bg-primary: #17191d; --bg-secondary: #202329; --bg-card: #1d2025; --glass-border: #343941; --border-color: #343941; --text-primary: #edf0f4; --text-secondary: #c5cbd3; --text-muted: #9199a5; --accent-color: #91add4; --accent-light: #26364d; }
  .ambiguity-badge { color: #e6bd8b !important; background: #3d2c1c !important; border-color: #6c4c2b !important; }
}
@media (max-width: 500px) {
  body { padding: 12px 8px 30px; }
  .preview-query { display: grid; }
  .preview-timing { justify-items: start; }
  .preview-entry-header { grid-template-columns: minmax(0, 1fr); }
  .preview-header-facts { padding: 7px 0 0; border-top: 1px solid var(--border-color); border-left: 0; }
}
"#;

/// Switching dictionaries, occurrences and candidates on the preview page.
pub const PREVIEW_SCRIPT: &'static str = r#"
<script>
(() => {
  const setDictionary = (name) => {
    document.querySelectorAll('.dictionary-choice').forEach((button) => {
      button.classList.toggle('active', button.dataset.dictionary === name);
    });
    document.querySelectorAll('[data-dictionary-pane]').forEach((pane) => {
      pane.classList.toggle('active', pane.dataset.dictionaryPane === name);
    });
    document.querySelectorAll('.candidate-choice').forEach((button) => {
      const names = (button.dataset.dictionaries || '').split('\u001f');
      button.classList.toggle('unavailable', !names.includes(name));
    });
  };
  document.querySelectorAll('.dictionary-choice:not(.unavailable)').forEach((button) => {
    button.addEventListener('click', () => setDictionary(button.dataset.dictionary));
  });
  document.querySelectorAll('.occurrence-choice').forEach((button) => {
    button.addEventListener('click', () => {
      const pane = button.closest('[data-dictionary-pane]');
      pane.querySelectorAll('.occurrence-choice').forEach((item) => item.classList.toggle('active', item === button));
      pane.querySelectorAll('[data-occurrence-pane]').forEach((item) => item.classList.toggle('active', item.dataset.occurrencePane === button.dataset.occurrence));
    });
  });
  document.querySelectorAll('.candidate-choice').forEach((button) => {
    button.addEventListener('click', () => {
      document.querySelectorAll('.candidate-choice').forEach((item) => item.classList.toggle('active', item === button));
      const target = document.querySelector('.candidate-target');
      if (target) target.textContent = `静态预览候选：${button.dataset.target}（应用中选择后会重新查询）`;
    });
  });
  document.querySelectorAll('[data-example-browser]').forEach((browser) => {
    const items = Array.from(browser.querySelectorAll('[data-example-index]'));
    if (items.length <= 2) return;
    const previous = browser.querySelector('[data-example-previous]');
    const next = browser.querySelector('[data-example-next]');
    const viewport = browser.querySelector('.example-browser__viewport');
    const toggle = browser.querySelector('[data-example-toggle]');
    const counter = browser.querySelector('[data-example-counter]');
    const total = browser.querySelector('[data-example-total]');
    const pages = Math.ceil(items.length / 2);
    let page = 0;
    let expanded = false;
    const render = () => {
      browser.classList.add('is-changing');
      items.forEach((item, index) => {
        item.hidden = !expanded && Math.floor(index / 2) !== page;
      });
      previous.disabled = expanded || page === 0;
      next.disabled = expanded || page === pages - 1;
      counter.textContent = `${page + 1}/${pages}`;
      counter.hidden = expanded;
      total.hidden = !expanded;
      total.textContent = `共 ${items.length} 条`;
      browser.classList.toggle('is-expanded', expanded);
      if (expanded || previous.disabled) previous.classList.remove('is-visible');
      if (expanded || next.disabled) next.classList.remove('is-visible');
      toggle.textContent = expanded ? '折叠' : '展开';
      toggle.setAttribute('aria-expanded', String(expanded));
      window.setTimeout(() => browser.classList.remove('is-changing'), 180);
    };
    previous.addEventListener('click', () => { if (page > 0) { page -= 1; render(); } });
    next.addEventListener('click', () => { if (page < pages - 1) { page += 1; render(); } });
    viewport.addEventListener('pointermove', (event) => {
      if (expanded || event.pointerType === 'touch') return;
      const bounds = viewport.getBoundingClientRect();
      const activationWidth = Math.min(72, Math.max(48, bounds.width * 0.16));
      const offset = event.clientX - bounds.left;
      previous.classList.toggle('is-visible', !previous.disabled && offset <= activationWidth);
      next.classList.toggle('is-visible', !next.disabled && offset >= bounds.width - activationWidth);
    });
    viewport.addEventListener('pointerleave', () => {
      previous.classList.remove('is-visible');
      next.classList.remove('is-visible');
    });
    toggle.addEventListener('click', () => { expanded = !expanded; render(); });
    render();
  });
  const active = document.querySelector('.dictionary-choice.active');
  if (active) setDictionary(active.dataset.dictionary);
})();
</script>
"#;

} // verus!
